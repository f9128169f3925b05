//! Parsing wayland protocol files.
use vstd::prelude::*;
use vstd::slice::slice_subrange;
use vstd::string::*;
use vstd::utf8::{decode_utf8, encode_utf8, encode_utf8_decode_utf8, valid_utf8};
use crate::spec_parser::protocol::{
    Arg, ArgView, Entry, EntryView, Enum, EnumView, Interface, InterfaceView, Message, MessageView, Protocol,
    ProtocolView, Type, view_text,
};
use crate::spec_parser::xml::{
    is_document, read_events, view_attributes, view_events, XmlEvent, XmlEventView, XmlKind,
    XmlKindView,
};
use crate::text::{
    bytes_eq, from_utf8, from_utf8_lossy, lossy_text, number_value, parse_number, squeeze, squeezed, to_vec,
};

verus! {

/// Why a protocol file cannot be parsed.
#[derive(Debug)]
pub enum Error {
    /// Ill-formed protocol file.
    IllFormed,
    /// Protocol must have a name.
    NoName,
    /// Invalid UTF-8.
    FromUtf8,
    /// Invalid UTF-8 in a number.
    Utf8,
    /// Invalid number.
    ParseInt,
    /// Invalid XML.
    Xml,
    UnexpectedToken(String),
    UnexpectedType(String),
    UnexpectedEndTag { expected: String, actual: String },
}

/// What an [`Error`] says.
pub enum ErrorView {
    IllFormed,
    NoName,
    FromUtf8,
    Utf8,
    ParseInt,
    Xml,
    UnexpectedToken(Seq<char>),
    UnexpectedType(Seq<char>),
    UnexpectedEndTag { expected: Seq<char>, actual: Seq<char> },
}

impl View for Error {
    type V = ErrorView;

    open spec fn view(&self) -> ErrorView {
        match *self {
            Error::IllFormed => ErrorView::IllFormed,
            Error::NoName => ErrorView::NoName,
            Error::FromUtf8 => ErrorView::FromUtf8,
            Error::Utf8 => ErrorView::Utf8,
            Error::ParseInt => ErrorView::ParseInt,
            Error::Xml => ErrorView::Xml,
            Error::UnexpectedToken(s) => ErrorView::UnexpectedToken(s@),
            Error::UnexpectedType(s) => ErrorView::UnexpectedType(s@),
            Error::UnexpectedEndTag { expected, actual } => ErrorView::UnexpectedEndTag {
                expected: expected@,
                actual: actual@,
            },
        }
    }
}

/// The events of a document.
pub type Events = Seq<XmlEventView>;

/// Attributes: names and values. Those that cannot be read are None.
pub type Attributes = Seq<Option<(Seq<u8>, Seq<u8>)>>;

/// What parsing from an event on comes to, and the event behind the last one that
/// was read. None if the document ends before it comes to anything, in which case
/// there is no end to reading.
pub type Parsed<T> = Option<(Result<T, ErrorView>, int)>;

/// The bytes of a name.
pub open spec fn tag(name: &str) -> Seq<u8> {
    encode_utf8(name@)
}

/// The text that bytes encode.
pub open spec fn text_of(bytes: Seq<u8>) -> Result<Seq<char>, ErrorView> {
    if valid_utf8(bytes) {
        Ok(decode_utf8(bytes))
    } else {
        Err(ErrorView::FromUtf8)
    }
}

/// The number that is written in bytes.
pub open spec fn number_of(bytes: Seq<u8>, radix: nat, max: nat) -> Result<nat, ErrorView> {
    if valid_utf8(bytes) {
        match number_value(decode_utf8(bytes), radix, max) {
            Some(n) => Ok(n),
            None => Err(ErrorView::ParseInt),
        }
    } else {
        Err(ErrorView::Utf8)
    }
}

/// The summary that is written in bytes: its words, with one space between them.
pub open spec fn summary_of(bytes: Seq<u8>) -> Seq<char> {
    squeezed(lossy_text(bytes)).0
}

/// The type of an argument.
pub open spec fn type_of(bytes: Seq<u8>) -> Result<Type, ErrorView> {
    if bytes == tag("int") {
        Ok(Type::Int)
    } else if bytes == tag("uint") {
        Ok(Type::Uint)
    } else if bytes == tag("fixed") {
        Ok(Type::Fixed)
    } else if bytes == tag("string") {
        Ok(Type::String)
    } else if bytes == tag("object") {
        Ok(Type::Object)
    } else if bytes == tag("new_id") {
        Ok(Type::NewId)
    } else if bytes == tag("array") {
        Ok(Type::Array)
    } else if bytes == tag("fd") {
        Ok(Type::Fd)
    } else if bytes == tag("destructor") {
        Ok(Type::Destructor)
    } else {
        Err(ErrorView::UnexpectedType(lossy_text(bytes)))
    }
}

/// Tells whether bytes are those of a name.
fn is_tag(bytes: &Vec<u8>, name: &str) -> (r: bool)
    ensures
        r == (bytes@ == tag(name)),
{
    bytes_eq(bytes.as_slice(), name.as_bytes())
}

/// The text that bytes encode.
fn to_text(bytes: &Vec<u8>) -> (r: Result<String, Error>)
    ensures
        match r {
            Ok(s) => text_of(bytes@) == Ok::<Seq<char>, ErrorView>(s@),
            Err(e) => text_of(bytes@) == Err::<Seq<char>, ErrorView>(e@),
        },
{
    match from_utf8(to_vec(bytes.as_slice())) {
        Some(s) => {
            proof {
                encode_utf8_decode_utf8(s@);
            }
            Ok(s)
        },
        None => Err(Error::FromUtf8),
    }
}

/// The number that is written in bytes.
fn to_number(bytes: &[u8], radix: u32, max: u32) -> (r: Result<u32, Error>)
    requires
        0 < radix <= 16,
    ensures
        match r {
            Ok(n) => number_of(bytes@, radix as nat, max as nat) == Ok::<nat, ErrorView>(n as nat),
            Err(e) => number_of(bytes@, radix as nat, max as nat) == Err::<nat, ErrorView>(e@),
        },
{
    match from_utf8(to_vec(bytes)) {
        Some(s) => {
            proof {
                encode_utf8_decode_utf8(s@);
            }
            match parse_number(s.as_str(), radix, max) {
                Some(n) => Ok(n),
                None => Err(Error::ParseInt),
            }
        },
        None => Err(Error::Utf8),
    }
}

/// The summary that is written in bytes.
fn to_summary(bytes: &Vec<u8>) -> (r: String)
    ensures
        r@ == summary_of(bytes@),
{
    squeeze(from_utf8_lossy(bytes.as_slice()).as_str())
}

/// The type of an argument, by its name.
pub fn parse_type(txt: &Vec<u8>) -> (r: Result<Type, Error>)
    ensures
        match r {
            Ok(typ) => type_of(txt@) == Ok::<Type, ErrorView>(typ),
            Err(e) => type_of(txt@) == Err::<Type, ErrorView>(e@),
        },
{
    if is_tag(txt, "int") {
        Ok(Type::Int)
    } else if is_tag(txt, "uint") {
        Ok(Type::Uint)
    } else if is_tag(txt, "fixed") {
        Ok(Type::Fixed)
    } else if is_tag(txt, "string") {
        Ok(Type::String)
    } else if is_tag(txt, "object") {
        Ok(Type::Object)
    } else if is_tag(txt, "new_id") {
        Ok(Type::NewId)
    } else if is_tag(txt, "array") {
        Ok(Type::Array)
    } else if is_tag(txt, "fd") {
        Ok(Type::Fd)
    } else if is_tag(txt, "destructor") {
        Ok(Type::Destructor)
    } else {
        Err(Error::UnexpectedType(from_utf8_lossy(txt.as_slice())))
    }
}

/// Goes through the events of a document.
pub struct EventCursor<'a> {
    pub list: &'a Vec<XmlEvent>,
    pub pos: usize,
}

impl<'a> EventCursor<'a> {
    /// The events of the document.
    pub open spec fn events(self) -> Events {
        view_events(self.list@)
    }

    pub open spec fn wf(self) -> bool {
        self.pos <= self.list@.len()
    }

    /// The next event. None if the document has ended before.
    fn next(&mut self) -> (r: Option<&'a XmlEvent>)
        requires
            old(self).wf(),
        ensures
            final(self).wf(),
            final(self).list == old(self).list,
            match r {
                Some(event) => {
                    &&& old(self).pos < old(self).events().len()
                    &&& event@ == old(self).events()[old(self).pos as int]
                    &&& final(self).pos == old(self).pos + 1
                },
                None => old(self).pos == old(self).events().len() && final(self).pos == old(self).pos,
            },
    {
        if self.pos < self.list.len() {
            let event = &self.list[self.pos];
            self.pos = self.pos + 1;
            Some(event)
        } else {
            None
        }
    }
}

/// What came of parsing agrees with what should come of it, and so does the place
/// where parsing has ended.
pub open spec fn agrees<T: View>(r: Option<Result<T, Error>>, parsed: Parsed<T::V>, pos: int) -> bool {
    match r {
        None => parsed is None,
        Some(Ok(value)) => parsed == Some((Ok::<T::V, ErrorView>(value@), pos)),
        Some(Err(e)) => parsed == Some((Err::<T::V, ErrorView>(e@), pos)),
    }
}

/// The text of an event that could be read, as a result.
pub open spec fn shown_ok(event: XmlEventView) -> Seq<char> {
    "Ok("@ + event.shown + ")"@
}

/// What is wrong with an event: it is an error itself, or it is not expected.
pub open spec fn unexpected(event: XmlEventView) -> ErrorView {
    ErrorView::UnexpectedToken(
        if event.kind is Error {
            "Err("@ + event.shown + ")"@
        } else {
            shown_ok(event)
        },
    )
}

fn unexpected_event(event: &XmlEvent) -> (r: Error)
    ensures
        r@ == unexpected(event@),
{
    let prefix = if matches!(event.kind, XmlKind::Error) {
        "Err("
    } else {
        "Ok("
    };
    Error::UnexpectedToken(prefix.to_owned().concat(event.shown.as_str()).concat(")"))
}

/// What is wrong with an element of the given name.
pub open spec fn unexpected_name(name: Seq<u8>) -> ErrorView {
    match text_of(name) {
        Ok(s) => ErrorView::UnexpectedToken(s),
        Err(e) => e,
    }
}

fn unexpected_element(name: &Vec<u8>) -> (r: Error)
    ensures
        r@ == unexpected_name(name@),
{
    match to_text(name) {
        Ok(s) => Error::UnexpectedToken(s),
        Err(e) => e,
    }
}

/// The end tag of an element.
pub open spec fn end_tag(es: Events, pos: int, name: &str) -> Parsed<()> {
    if 0 <= pos < es.len() {
        Some(
            (
                match es[pos].kind {
                    XmlKindView::End { name: actual } => if actual == tag(name) {
                        Ok(())
                    } else {
                        Err(
                            ErrorView::UnexpectedEndTag { expected: lossy_text(tag(name)), actual: lossy_text(actual) },
                        )
                    },
                    XmlKindView::Error => Err(ErrorView::Xml),
                    _ => Err(ErrorView::UnexpectedToken(es[pos].shown)),
                },
                pos + 1,
            ),
        )
    } else {
        None
    }
}

/// Reads the end tag of an element.
fn extract_end_tag(reader: &mut EventCursor<'_>, name: &str) -> (r: Option<Result<(), Error>>)
    requires
        old(reader).wf(),
    ensures
        final(reader).wf(),
        final(reader).list == old(reader).list,
        match r {
            None => end_tag(old(reader).events(), old(reader).pos as int, name) is None,
            Some(Ok(_)) => end_tag(old(reader).events(), old(reader).pos as int, name) == Some(
                (Ok::<(), ErrorView>(()), final(reader).pos as int),
            ),
            Some(Err(e)) => end_tag(old(reader).events(), old(reader).pos as int, name) == Some(
                (Err::<(), ErrorView>(e@), final(reader).pos as int),
            ),
        },
{
    let event = match reader.next() {
        Some(event) => event,
        None => {
            return None;
        },
    };
    Some(
        match &event.kind {
            XmlKind::End { name: actual } => if is_tag(actual, name) {
                Ok(())
            } else {
                Err(
                    Error::UnexpectedEndTag {
                        expected: from_utf8_lossy(name.as_bytes()),
                        actual: from_utf8_lossy(actual.as_slice()),
                    },
                )
            },
            XmlKind::Error => Err(Error::Xml),
            _ => Err(Error::UnexpectedToken(event.shown.clone())),
        },
    )
}

/// The summary among the first `n` attributes of a description. The last one
/// counts.
pub open spec fn description_summary(attrs: Attributes, n: int) -> Seq<char>
    decreases n,
{
    if n <= 0 {
        Seq::empty()
    } else {
        match attrs[n - 1] {
            Some((key, value)) if key == tag("summary") => summary_of(value),
            _ => description_summary(attrs, n - 1),
        }
    }
}

/// The text of a description, with what was read of it before. Parts that comments
/// keep apart get an empty line between them.
pub open spec fn description_text(es: Events, pos: int, text: Seq<char>) -> Parsed<Seq<char>>
    decreases es.len() - pos,
{
    if 0 <= pos < es.len() {
        match es[pos].kind {
            XmlKindView::Text { text: more } => {
                let start = if text.len() > 0 {
                    text + "\n\n"@
                } else {
                    text
                };
                description_text(
                    es,
                    pos + 1,
                    start + match more {
                        Some(more) => more,
                        None => Seq::empty(),
                    },
                )
            },
            XmlKindView::End { name } if name == tag("description") => Some((Ok(text), pos + 1)),
            XmlKindView::Comment => description_text(es, pos + 1, text),
            XmlKindView::Error => Some((Err(ErrorView::Xml), pos + 1)),
            _ => Some((Err(unexpected(es[pos])), pos + 1)),
        }
    } else {
        None
    }
}

/// A description: its summary and its text.
pub open spec fn description(es: Events, pos: int, attrs: Attributes) -> Parsed<(Seq<char>, Seq<char>)> {
    match description_text(es, pos, Seq::empty()) {
        None => None,
        Some((Ok(text), p)) => Some((Ok((description_summary(attrs, attrs.len() as int), text)), p)),
        Some((Err(e), p)) => Some((Err(e), p)),
    }
}

/// What came of parsing a description.
pub open spec fn description_agrees(
    r: Option<Result<(String, String), Error>>,
    parsed: Parsed<(Seq<char>, Seq<char>)>,
    pos: int,
) -> bool {
    match r {
        None => parsed is None,
        Some(Ok((summary, text))) => parsed == Some((Ok::<(Seq<char>, Seq<char>), ErrorView>((summary@, text@)), pos)),
        Some(Err(e)) => parsed == Some((Err::<(Seq<char>, Seq<char>), ErrorView>(e@), pos)),
    }
}

/// Parses a description, behind its start tag.
fn parse_description(reader: &mut EventCursor<'_>, attrs: &Vec<Option<(Vec<u8>, Vec<u8>)>>) -> (r: Option<
    Result<(String, String), Error>,
>)
    requires
        old(reader).wf(),
    ensures
        final(reader).wf(),
        final(reader).list == old(reader).list,
        final(reader).pos >= old(reader).pos,
        r is Some ==> final(reader).pos > old(reader).pos,
        description_agrees(
            r,
            description(old(reader).events(), old(reader).pos as int, view_attributes(attrs@)),
            final(reader).pos as int,
        ),
{
    let ghost es = reader.events();
    let ghost avs = view_attributes(attrs@);
    let mut summary = String::new();
    let mut i: usize = 0;
    while i < attrs.len()
        invariant
            0 <= i <= attrs@.len(),
            avs == view_attributes(attrs@),
            summary@ == description_summary(avs, i as int),
        decreases attrs@.len() - i,
    {
        proof {
            assert(avs[i as int] == match attrs@[i as int] {
                Some((key, value)) => Some((key@, value@)),
                None => None,
            });
        }
        if let Some((key, value)) = &attrs[i] {
            if is_tag(key, "summary") {
                summary = to_summary(value);
            }
        }
        i = i + 1;
    }
    let mut text = String::new();
    // Some protocols have comments inside their descriptions, so we need to parse
    // them in a loop and concatenate the parts into a single block of text.
    loop
        invariant
            reader.wf(),
            reader.list == old(reader).list,
            reader.pos >= old(reader).pos,
            es == reader.events(),
            avs == view_attributes(attrs@),
            summary@ == description_summary(avs, avs.len() as int),
            description_text(es, old(reader).pos as int, Seq::empty()) == description_text(
                es,
                reader.pos as int,
                text@,
            ),
        decreases es.len() - reader.pos,
    {
        let event = match reader.next() {
            Some(event) => event,
            None => {
                return None;
            },
        };
        match &event.kind {
            XmlKind::Text { text: more } => {
                if text.as_str().is_empty() {
                } else {
                    text.append("\n\n");
                }
                let ghost start = text@;
                if let Some(more) = more {
                    text.append(more.as_str());
                }
                proof {
                    assert(start + Seq::<char>::empty() =~= start);
                }
            },
            XmlKind::End { name } => if is_tag(name, "description") {
                return Some(Ok((summary, text)));
            } else {
                return Some(Err(unexpected_event(event)));
            },
            XmlKind::Comment => {},
            XmlKind::Error => {
                return Some(Err(Error::Xml));
            },
            _ => {
                return Some(Err(unexpected_event(event)));
            },
        }
    }
}

/// Entry of which nothing is said yet.
pub open spec fn blank_entry() -> EntryView {
    EntryView {
        name: Seq::empty(),
        value: 0,
        since: 1,
        description: None,
        summary: None,
    }
}

proof fn lemma_blank_entry(v: Entry)
    requires
        v.is_blank(),
    ensures
        v@ == blank_entry(),
{
    assert(v@.name =~= Seq::empty());
}

/// The value of an entry: hexadecimal behind `0x`, decimal otherwise.
pub open spec fn entry_value(bytes: Seq<u8>) -> Result<nat, ErrorView> {
    if bytes.len() >= 2 && bytes.take(2) == tag("0x") {
        number_of(bytes.skip(2), 16, u32::MAX as nat)
    } else {
        number_of(bytes, 10, u32::MAX as nat)
    }
}

fn to_entry_value(bytes: &Vec<u8>) -> (r: Result<u32, Error>)
    ensures
        match r {
            Ok(n) => entry_value(bytes@) == Ok::<nat, ErrorView>(n as nat),
            Err(e) => entry_value(bytes@) == Err::<nat, ErrorView>(e@),
        },
{
    if bytes.len() >= 2 {
        let head = slice_subrange(bytes.as_slice(), 0, 2);
        let rest = slice_subrange(bytes.as_slice(), 2, bytes.len());
        proof {
            assert(head@ =~= bytes@.take(2));
            assert(rest@ =~= bytes@.skip(2));
        }
        if bytes_eq(head, "0x".as_bytes()) {
            return to_number(rest, 16, u32::MAX);
        }
    }
    to_number(bytes.as_slice(), 10, u32::MAX)
}

/// An entry with one attribute more.
pub open spec fn entry_attr(v: EntryView, key: Seq<u8>, value: Seq<u8>) -> Result<EntryView, ErrorView> {
    if key == tag("name") {
        match text_of(value) {
            Ok(s) => Ok(EntryView { name: s, ..v }),
            Err(e) => Err(e),
        }
    } else if key == tag("value") {
        match entry_value(value) {
            Ok(n) => Ok(EntryView { value: n as u32, ..v }),
            Err(e) => Err(e),
        }
    } else if key == tag("since") {
        match number_of(value, 10, u16::MAX as nat) {
            Ok(n) => Ok(EntryView { since: n as u16, ..v }),
            Err(e) => Err(e),
        }
    } else if key == tag("summary") {
        Ok(EntryView { summary: Some(summary_of(value)), ..v })
    } else {
        Ok(v)
    }
}

/// An entry with the first `n` attributes.
pub open spec fn entry_attrs(v: EntryView, attrs: Attributes, n: int) -> Result<EntryView, ErrorView>
    decreases n,
{
    if n <= 0 {
        Ok(v)
    } else {
        match entry_attrs(v, attrs, n - 1) {
            Err(e) => Err(e),
            Ok(v) => match attrs[n - 1] {
                Some((key, value)) => entry_attr(v, key, value),
                None => Ok(v),
            },
        }
    }
}

/// An attribute that is wrong stays wrong.
proof fn lemma_entry_attrs(v: EntryView, attrs: Attributes, a: int, b: int)
    requires
        0 <= a <= b,
        entry_attrs(v, attrs, a) is Err,
    ensures
        entry_attrs(v, attrs, b) == entry_attrs(v, attrs, a),
    decreases b - a,
{
    if a < b {
        lemma_entry_attrs(v, attrs, a, b - 1);
    }
}

/// Reads an attribute of an entry.
fn set_entry_attr(v: &mut Entry, key: &Vec<u8>, value: &Vec<u8>) -> (r: Result<(), Error>)
    ensures
        match r {
            Ok(_) => entry_attr(old(v)@, key@, value@) == Ok::<EntryView, ErrorView>(final(v)@),
            Err(e) => entry_attr(old(v)@, key@, value@) == Err::<EntryView, ErrorView>(e@),
        },
{
    if is_tag(key, "name") {
        match to_text(value) {
            Ok(s) => {
                v.name = s;
            },
            Err(e) => {
                return Err(e);
            },
        }
    } else if is_tag(key, "value") {
        match to_entry_value(value) {
            Ok(n) => {
                v.value = n;
            },
            Err(e) => {
                return Err(e);
            },
        }
    } else if is_tag(key, "since") {
        match to_number(value.as_slice(), 10, 0xffff) {
            Ok(n) => {
                v.since = n as u16;
            },
            Err(e) => {
                return Err(e);
            },
        }
    } else if is_tag(key, "summary") {
        v.summary = Some(to_summary(value));
    }
    Ok(())
}

/// Reads the attributes of an entry.
fn set_entry_attrs(v: &mut Entry, attrs: &Vec<Option<(Vec<u8>, Vec<u8>)>>) -> (r: Result<(), Error>)
    ensures
        match r {
            Ok(_) => entry_attrs(old(v)@, view_attributes(attrs@), attrs@.len() as int) == Ok::<EntryView, ErrorView>(
                final(v)@,
            ),
            Err(e) => entry_attrs(old(v)@, view_attributes(attrs@), attrs@.len() as int) == Err::<EntryView, ErrorView>(
                e@,
            ),
        },
{
    let ghost v0 = v@;
    let ghost avs = view_attributes(attrs@);
    let mut i: usize = 0;
    while i < attrs.len()
        invariant
            0 <= i <= attrs@.len(),
            v0 == old(v)@,
            avs == view_attributes(attrs@),
            entry_attrs(v0, avs, i as int) == Ok::<EntryView, ErrorView>(v@),
        decreases attrs@.len() - i,
    {
        proof {
            assert(avs[i as int] == match attrs@[i as int] {
                Some((key, value)) => Some((key@, value@)),
                None => None,
            });
        }
        if let Some((key, value)) = &attrs[i] {
            match set_entry_attr(v, key, value) {
                Ok(_) => {},
                Err(e) => {
                    proof {
                        lemma_entry_attrs(v0, avs, i + 1, avs.len() as int);
                    }
                    return Err(e);
                },
            }
        }
        i = i + 1;
    }
    Ok(())
}

/// An entry of an enum, with what was read of it before.
pub open spec fn entry_body(es: Events, pos: int, v: EntryView) -> Parsed<EntryView>
    decreases es.len() - pos,
{
    if 0 <= pos < es.len() {
        match es[pos].kind {
            XmlKindView::Start { name, attributes } => if name == tag("description") {
                match description(es, pos + 1, attributes) {
                    None => None,
                    Some((Err(e), p)) => Some((Err(e), p)),
                    Some((Ok(x), p)) => if pos < p <= es.len() {
                        entry_body(es, p, EntryView { description: Some(x), ..v })
                    } else {
                        None
                    },
                }
            } else {
                Some((Err(ErrorView::UnexpectedToken(lossy_text(name))), pos + 1))
            },
            XmlKindView::End { name } if name == tag("entry") => Some((Ok(v), pos + 1)),
            _ => entry_body(es, pos + 1, v),
        }
    } else {
        None
    }
}

/// An entry of an enum.
pub open spec fn entry(es: Events, pos: int, attrs: Attributes) -> Parsed<EntryView> {
    match entry_attrs(blank_entry(), attrs, attrs.len() as int) {
        Err(e) => Some((Err(e), pos)),
        Ok(v) => entry_body(es, pos, v),
    }
}

/// Parses an entry, behind its start tag.
fn parse_entry(reader: &mut EventCursor<'_>, attrs: &Vec<Option<(Vec<u8>, Vec<u8>)>>) -> (r: Option<
    Result<Entry, Error>,
>)
    requires
        old(reader).wf(),
    ensures
        final(reader).wf(),
        final(reader).list == old(reader).list,
        final(reader).pos >= old(reader).pos,
        r matches Some(Ok(_)) ==> final(reader).pos > old(reader).pos,
        agrees(
            r,
            entry(old(reader).events(), old(reader).pos as int, view_attributes(attrs@)),
            final(reader).pos as int,
        ),
{
    let ghost es = reader.events();
    let ghost pos0 = reader.pos as int;
    let mut v = Entry::new();
    proof {
        lemma_blank_entry(v);
    }
    match set_entry_attrs(&mut v, attrs) {
        Ok(_) => {},
        Err(e) => {
            return Some(Err(e));
        },
    }
    let ghost v0 = v@;
    loop
        invariant
            reader.wf(),
            reader.list == old(reader).list,
            reader.pos >= old(reader).pos,
            pos0 == old(reader).pos,
            es == reader.events(),
            entry_attrs(blank_entry(), view_attributes(attrs@), attrs@.len() as int) == Ok::<EntryView, ErrorView>(v0),
            entry_body(es, pos0, v0) == entry_body(es, reader.pos as int, v@),
        decreases es.len() - reader.pos,
    {
        let ghost pos1 = reader.pos as int;
        let ghost v1 = v@;
        let event = match reader.next() {
            Some(event) => event,
            None => {
                return None;
            },
        };
        match &event.kind {
            XmlKind::Start { name, attributes } => if is_tag(name, "description") {
                match parse_description(reader, attributes) {
                    None => {
                        return None;
                    },
                    Some(Err(e)) => {
                        return Some(Err(e));
                    },
                    Some(Ok(x)) => {
                        v.description = Some(x);
                        proof {
                            assert(v@ == EntryView { description: v@.description, ..v1 });
                        }
                    },
                }
            } else {
                return Some(Err(Error::UnexpectedToken(from_utf8_lossy(name.as_slice()))));
            },
            XmlKind::End { name } => if is_tag(name, "entry") {
                return Some(Ok(v));
            },
            _ => {},
        }
    }
}

/// Enum of which nothing is said yet.
pub open spec fn blank_enum_() -> EnumView {
    EnumView {
        name: Seq::empty(),
        since: 1,
        description: None,
        entries: Seq::empty(),
        bitfield: false,
    }
}

proof fn lemma_blank_enum_(v: Enum)
    requires
        v.is_blank(),
    ensures
        v@ == blank_enum_(),
{
    assert(v@.name =~= Seq::empty());
    assert(v@.entries =~= Seq::empty());
}

/// An enum with one attribute more.
pub open spec fn enum__attr(v: EnumView, key: Seq<u8>, value: Seq<u8>) -> Result<EnumView, ErrorView> {
    if key == tag("name") {
        match text_of(value) {
            Ok(s) => Ok(EnumView { name: s, ..v }),
            Err(e) => Err(e),
        }
    } else if key == tag("since") {
        match number_of(value, 10, u16::MAX as nat) {
            Ok(n) => Ok(EnumView { since: n as u16, ..v }),
            Err(e) => Err(e),
        }
    } else if key == tag("bitfield") {
        Ok(
            EnumView {
                bitfield: value == tag("true") || v.bitfield,
                ..v
            },
        )
    } else {
        Ok(v)
    }
}

/// An enum with the first `n` attributes.
pub open spec fn enum__attrs(v: EnumView, attrs: Attributes, n: int) -> Result<EnumView, ErrorView>
    decreases n,
{
    if n <= 0 {
        Ok(v)
    } else {
        match enum__attrs(v, attrs, n - 1) {
            Err(e) => Err(e),
            Ok(v) => match attrs[n - 1] {
                Some((key, value)) => enum__attr(v, key, value),
                None => Ok(v),
            },
        }
    }
}

/// An attribute that is wrong stays wrong.
proof fn lemma_enum__attrs(v: EnumView, attrs: Attributes, a: int, b: int)
    requires
        0 <= a <= b,
        enum__attrs(v, attrs, a) is Err,
    ensures
        enum__attrs(v, attrs, b) == enum__attrs(v, attrs, a),
    decreases b - a,
{
    if a < b {
        lemma_enum__attrs(v, attrs, a, b - 1);
    }
}

/// Reads an attribute of an enum.
fn set_enum__attr(v: &mut Enum, key: &Vec<u8>, value: &Vec<u8>) -> (r: Result<(), Error>)
    ensures
        match r {
            Ok(_) => enum__attr(old(v)@, key@, value@) == Ok::<EnumView, ErrorView>(final(v)@),
            Err(e) => enum__attr(old(v)@, key@, value@) == Err::<EnumView, ErrorView>(e@),
        },
{
    if is_tag(key, "name") {
        match to_text(value) {
            Ok(s) => {
                v.name = s;
            },
            Err(e) => {
                return Err(e);
            },
        }
    } else if is_tag(key, "since") {
        match to_number(value.as_slice(), 10, 0xffff) {
            Ok(n) => {
                v.since = n as u16;
            },
            Err(e) => {
                return Err(e);
            },
        }
    } else if is_tag(key, "bitfield") {
        if is_tag(value, "true") {
            v.bitfield = true;
        }
    }
    Ok(())
}

/// Reads the attributes of an enum.
fn set_enum__attrs(v: &mut Enum, attrs: &Vec<Option<(Vec<u8>, Vec<u8>)>>) -> (r: Result<(), Error>)
    ensures
        match r {
            Ok(_) => enum__attrs(old(v)@, view_attributes(attrs@), attrs@.len() as int) == Ok::<EnumView, ErrorView>(
                final(v)@,
            ),
            Err(e) => enum__attrs(old(v)@, view_attributes(attrs@), attrs@.len() as int) == Err::<EnumView, ErrorView>(
                e@,
            ),
        },
{
    let ghost v0 = v@;
    let ghost avs = view_attributes(attrs@);
    let mut i: usize = 0;
    while i < attrs.len()
        invariant
            0 <= i <= attrs@.len(),
            v0 == old(v)@,
            avs == view_attributes(attrs@),
            enum__attrs(v0, avs, i as int) == Ok::<EnumView, ErrorView>(v@),
        decreases attrs@.len() - i,
    {
        proof {
            assert(avs[i as int] == match attrs@[i as int] {
                Some((key, value)) => Some((key@, value@)),
                None => None,
            });
        }
        if let Some((key, value)) = &attrs[i] {
            match set_enum__attr(v, key, value) {
                Ok(_) => {},
                Err(e) => {
                    proof {
                        lemma_enum__attrs(v0, avs, i + 1, avs.len() as int);
                    }
                    return Err(e);
                },
            }
        }
        i = i + 1;
    }
    Ok(())
}

/// An enum, with what was read of it before.
pub open spec fn enum__body(es: Events, pos: int, v: EnumView) -> Parsed<EnumView>
    decreases es.len() - pos,
{
    if 0 <= pos < es.len() {
        match es[pos].kind {
            XmlKindView::Start { name, attributes } => if name == tag("description") {
                match description(es, pos + 1, attributes) {
                    None => None,
                    Some((Err(e), p)) => Some((Err(e), p)),
                    Some((Ok(x), p)) => if pos < p <= es.len() {
                        enum__body(es, p, EnumView { description: Some(x), ..v })
                    } else {
                        None
                    },
                }
            } else if name == tag("entry") {
                match entry(es, pos + 1, attributes) {
                    None => None,
                    Some((Err(e), p)) => Some((Err(e), p)),
                    Some((Ok(x), p)) => if pos < p <= es.len() {
                        enum__body(es, p, EnumView { entries: v.entries.push(x), ..v })
                    } else {
                        None
                    },
                }
            } else {
                Some((Err(unexpected_name(name)), pos + 1))
            },
            XmlKindView::End { name } if name == tag("enum") => Some((Ok(v), pos + 1)),
            _ => enum__body(es, pos + 1, v),
        }
    } else {
        None
    }
}

/// An enum.
pub open spec fn enum_(es: Events, pos: int, attrs: Attributes) -> Parsed<EnumView> {
    match enum__attrs(blank_enum_(), attrs, attrs.len() as int) {
        Err(e) => Some((Err(e), pos)),
        Ok(v) => enum__body(es, pos, v),
    }
}

/// Parses an enum, behind its start tag.
fn parse_enum(reader: &mut EventCursor<'_>, attrs: &Vec<Option<(Vec<u8>, Vec<u8>)>>) -> (r: Option<
    Result<Enum, Error>,
>)
    requires
        old(reader).wf(),
    ensures
        final(reader).wf(),
        final(reader).list == old(reader).list,
        final(reader).pos >= old(reader).pos,
        r matches Some(Ok(_)) ==> final(reader).pos > old(reader).pos,
        agrees(
            r,
            enum_(old(reader).events(), old(reader).pos as int, view_attributes(attrs@)),
            final(reader).pos as int,
        ),
{
    let ghost es = reader.events();
    let ghost pos0 = reader.pos as int;
    let mut v = Enum::new();
    proof {
        lemma_blank_enum_(v);
    }
    match set_enum__attrs(&mut v, attrs) {
        Ok(_) => {},
        Err(e) => {
            return Some(Err(e));
        },
    }
    let ghost v0 = v@;
    loop
        invariant
            reader.wf(),
            reader.list == old(reader).list,
            reader.pos >= old(reader).pos,
            pos0 == old(reader).pos,
            es == reader.events(),
            enum__attrs(blank_enum_(), view_attributes(attrs@), attrs@.len() as int) == Ok::<EnumView, ErrorView>(v0),
            enum__body(es, pos0, v0) == enum__body(es, reader.pos as int, v@),
        decreases es.len() - reader.pos,
    {
        let ghost pos1 = reader.pos as int;
        let ghost v1 = v@;
        let event = match reader.next() {
            Some(event) => event,
            None => {
                return None;
            },
        };
        match &event.kind {
            XmlKind::Start { name, attributes } => if is_tag(name, "description") {
                match parse_description(reader, attributes) {
                    None => {
                        return None;
                    },
                    Some(Err(e)) => {
                        return Some(Err(e));
                    },
                    Some(Ok(x)) => {
                        v.description = Some(x);
                        proof {
                            assert(v@ == EnumView { description: v@.description, ..v1 });
                        }
                    },
                }
            } else if is_tag(name, "entry") {
                match parse_entry(reader, attributes) {
                    None => {
                        return None;
                    },
                    Some(Err(e)) => {
                        return Some(Err(e));
                    },
                    Some(Ok(x)) => {
                        v.entries.push(x);
                        proof {
                            assert(v@.entries =~= v1.entries.push(x@));
                            assert(v@ == EnumView { entries: v@.entries, ..v1 });
                        }
                    },
                }
            } else {
                return Some(Err(unexpected_element(name)));
            },
            XmlKind::End { name } => if is_tag(name, "enum") {
                return Some(Ok(v));
            },
            _ => {},
        }
    }
}

/// Arg of which nothing is said yet.
pub open spec fn blank_arg() -> ArgView {
    ArgView {
        name: Seq::empty(),
        typ: Type::Object,
        interface: None,
        summary: None,
        description: None,
        allow_null: false,
        enum_: None,
    }
}

proof fn lemma_blank_arg(v: Arg)
    requires
        v.is_blank(),
    ensures
        v@ == blank_arg(),
{
    assert(v@.name =~= Seq::empty());
}

/// An argument with one attribute more.
pub open spec fn arg_attr(v: ArgView, key: Seq<u8>, value: Seq<u8>) -> Result<ArgView, ErrorView> {
    if key == tag("name") {
        match text_of(value) {
            Ok(s) => Ok(ArgView { name: s, ..v }),
            Err(e) => Err(e),
        }
    } else if key == tag("type") {
        match type_of(value) {
            Ok(typ) => Ok(ArgView { typ: typ, ..v }),
            Err(e) => Err(e),
        }
    } else if key == tag("summary") {
        Ok(ArgView { summary: Some(summary_of(value)), ..v })
    } else if key == tag("interface") {
        match text_of(value) {
            Ok(s) => Ok(ArgView { interface: Some(s), ..v }),
            Err(e) => Err(e),
        }
    } else if key == tag("allow-null") {
        Ok(
            ArgView {
                allow_null: value == tag("true") || v.allow_null,
                ..v
            },
        )
    } else if key == tag("enum") {
        match text_of(value) {
            Ok(s) => Ok(ArgView { enum_: Some(s), ..v }),
            Err(e) => Err(e),
        }
    } else {
        Ok(v)
    }
}

/// An argument with the first `n` attributes.
pub open spec fn arg_attrs(v: ArgView, attrs: Attributes, n: int) -> Result<ArgView, ErrorView>
    decreases n,
{
    if n <= 0 {
        Ok(v)
    } else {
        match arg_attrs(v, attrs, n - 1) {
            Err(e) => Err(e),
            Ok(v) => match attrs[n - 1] {
                Some((key, value)) => arg_attr(v, key, value),
                None => Ok(v),
            },
        }
    }
}

/// An attribute that is wrong stays wrong.
proof fn lemma_arg_attrs(v: ArgView, attrs: Attributes, a: int, b: int)
    requires
        0 <= a <= b,
        arg_attrs(v, attrs, a) is Err,
    ensures
        arg_attrs(v, attrs, b) == arg_attrs(v, attrs, a),
    decreases b - a,
{
    if a < b {
        lemma_arg_attrs(v, attrs, a, b - 1);
    }
}

/// Reads an attribute of an argument.
fn set_arg_attr(v: &mut Arg, key: &Vec<u8>, value: &Vec<u8>) -> (r: Result<(), Error>)
    ensures
        match r {
            Ok(_) => arg_attr(old(v)@, key@, value@) == Ok::<ArgView, ErrorView>(final(v)@),
            Err(e) => arg_attr(old(v)@, key@, value@) == Err::<ArgView, ErrorView>(e@),
        },
{
    if is_tag(key, "name") {
        match to_text(value) {
            Ok(s) => {
                v.name = s;
            },
            Err(e) => {
                return Err(e);
            },
        }
    } else if is_tag(key, "type") {
        match parse_type(value) {
            Ok(typ) => {
                v.typ = typ;
            },
            Err(e) => {
                return Err(e);
            },
        }
    } else if is_tag(key, "summary") {
        v.summary = Some(to_summary(value));
    } else if is_tag(key, "interface") {
        match to_text(value) {
            Ok(s) => {
                v.interface = Some(s);
            },
            Err(e) => {
                return Err(e);
            },
        }
    } else if is_tag(key, "allow-null") {
        if is_tag(value, "true") {
            v.allow_null = true;
        }
    } else if is_tag(key, "enum") {
        match to_text(value) {
            Ok(s) => {
                v.enum_ = Some(s);
            },
            Err(e) => {
                return Err(e);
            },
        }
    }
    Ok(())
}

/// Reads the attributes of an argument.
fn set_arg_attrs(v: &mut Arg, attrs: &Vec<Option<(Vec<u8>, Vec<u8>)>>) -> (r: Result<(), Error>)
    ensures
        match r {
            Ok(_) => arg_attrs(old(v)@, view_attributes(attrs@), attrs@.len() as int) == Ok::<ArgView, ErrorView>(
                final(v)@,
            ),
            Err(e) => arg_attrs(old(v)@, view_attributes(attrs@), attrs@.len() as int) == Err::<ArgView, ErrorView>(
                e@,
            ),
        },
{
    let ghost v0 = v@;
    let ghost avs = view_attributes(attrs@);
    let mut i: usize = 0;
    while i < attrs.len()
        invariant
            0 <= i <= attrs@.len(),
            v0 == old(v)@,
            avs == view_attributes(attrs@),
            arg_attrs(v0, avs, i as int) == Ok::<ArgView, ErrorView>(v@),
        decreases attrs@.len() - i,
    {
        proof {
            assert(avs[i as int] == match attrs@[i as int] {
                Some((key, value)) => Some((key@, value@)),
                None => None,
            });
        }
        if let Some((key, value)) = &attrs[i] {
            match set_arg_attr(v, key, value) {
                Ok(_) => {},
                Err(e) => {
                    proof {
                        lemma_arg_attrs(v0, avs, i + 1, avs.len() as int);
                    }
                    return Err(e);
                },
            }
        }
        i = i + 1;
    }
    Ok(())
}

/// An argument, with what was read of it before.
pub open spec fn arg_body(es: Events, pos: int, v: ArgView) -> Parsed<ArgView>
    decreases es.len() - pos,
{
    if 0 <= pos < es.len() {
        match es[pos].kind {
            XmlKindView::Start { name, attributes } => if name == tag("description") {
                match description(es, pos + 1, attributes) {
                    None => None,
                    Some((Err(e), p)) => Some((Err(e), p)),
                    Some((Ok(x), p)) => if pos < p <= es.len() {
                        arg_body(es, p, ArgView { description: Some(x), ..v })
                    } else {
                        None
                    },
                }
            } else {
                Some((Err(unexpected_name(name)), pos + 1))
            },
            XmlKindView::End { name } if name == tag("arg") => Some((Ok(v), pos + 1)),
            _ => arg_body(es, pos + 1, v),
        }
    } else {
        None
    }
}

/// An argument.
pub open spec fn arg(es: Events, pos: int, attrs: Attributes) -> Parsed<ArgView> {
    match arg_attrs(blank_arg(), attrs, attrs.len() as int) {
        Err(e) => Some((Err(e), pos)),
        Ok(v) => arg_body(es, pos, v),
    }
}

/// Parses an argument, behind its start tag.
fn parse_arg(reader: &mut EventCursor<'_>, attrs: &Vec<Option<(Vec<u8>, Vec<u8>)>>) -> (r: Option<
    Result<Arg, Error>,
>)
    requires
        old(reader).wf(),
    ensures
        final(reader).wf(),
        final(reader).list == old(reader).list,
        final(reader).pos >= old(reader).pos,
        r matches Some(Ok(_)) ==> final(reader).pos > old(reader).pos,
        agrees(
            r,
            arg(old(reader).events(), old(reader).pos as int, view_attributes(attrs@)),
            final(reader).pos as int,
        ),
{
    let ghost es = reader.events();
    let ghost pos0 = reader.pos as int;
    let mut v = Arg::new();
    proof {
        lemma_blank_arg(v);
    }
    match set_arg_attrs(&mut v, attrs) {
        Ok(_) => {},
        Err(e) => {
            return Some(Err(e));
        },
    }
    let ghost v0 = v@;
    loop
        invariant
            reader.wf(),
            reader.list == old(reader).list,
            reader.pos >= old(reader).pos,
            pos0 == old(reader).pos,
            es == reader.events(),
            arg_attrs(blank_arg(), view_attributes(attrs@), attrs@.len() as int) == Ok::<ArgView, ErrorView>(v0),
            arg_body(es, pos0, v0) == arg_body(es, reader.pos as int, v@),
        decreases es.len() - reader.pos,
    {
        let ghost pos1 = reader.pos as int;
        let ghost v1 = v@;
        let event = match reader.next() {
            Some(event) => event,
            None => {
                return None;
            },
        };
        match &event.kind {
            XmlKind::Start { name, attributes } => if is_tag(name, "description") {
                match parse_description(reader, attributes) {
                    None => {
                        return None;
                    },
                    Some(Err(e)) => {
                        return Some(Err(e));
                    },
                    Some(Ok(x)) => {
                        v.description = Some(x);
                        proof {
                            assert(v@ == ArgView { description: v@.description, ..v1 });
                        }
                    },
                }
            } else {
                return Some(Err(unexpected_element(name)));
            },
            XmlKind::End { name } => if is_tag(name, "arg") {
                return Some(Ok(v));
            },
            _ => {},
        }
    }
}

/// The arguments that an argument stands for: an object of any interface comes
/// with the name and the version of its interface.
pub open spec fn expanded(arg: ArgView) -> Seq<ArgView> {
    if arg.typ == Type::NewId && arg.interface is None {
        seq![
            ArgView {
                name: "interface"@,
                typ: Type::String,
                summary: Some("interface of the bound object"@),
                ..blank_arg()
            },
            ArgView {
                name: "version"@,
                typ: Type::Uint,
                summary: Some("interface version of the bound object"@),
                ..blank_arg()
            },
            arg,
        ]
    } else {
        seq![arg]
    }
}

/// Adds the arguments that an argument stands for.
fn push_expanded(args: &mut Vec<Arg>, arg: Arg)
    ensures
        final(args)@.map_values(|a: Arg| a@) == old(args)@.map_values(|a: Arg| a@) + expanded(arg@),
{
    if arg.typ == Type::NewId && arg.interface.is_none() {
        // Push implicit parameters: interface and version.
        args.push(
            Arg {
                name: "interface".to_owned(),
                typ: Type::String,
                interface: None,
                summary: Some("interface of the bound object".to_owned()),
                description: None,
                allow_null: false,
                enum_: None,
            },
        );
        args.push(
            Arg {
                name: "version".to_owned(),
                typ: Type::Uint,
                interface: None,
                summary: Some("interface version of the bound object".to_owned()),
                description: None,
                allow_null: false,
                enum_: None,
            },
        );
    }
    args.push(arg);
    proof {
        assert(args@.map_values(|a: Arg| a@) =~= old(args)@.map_values(|a: Arg| a@) + expanded(arg@));
    }
}

/// Message of which nothing is said yet.
pub open spec fn blank_message() -> MessageView {
    MessageView {
        name: Seq::empty(),
        typ: None,
        since: 1,
        description: None,
        args: Seq::empty(),
    }
}

proof fn lemma_blank_message(v: Message)
    requires
        v.is_blank(),
    ensures
        v@ == blank_message(),
{
    assert(v@.name =~= Seq::empty());
    assert(v@.args =~= Seq::empty());
}

/// A message with one attribute more.
pub open spec fn message_attr(v: MessageView, key: Seq<u8>, value: Seq<u8>) -> Result<MessageView, ErrorView> {
    if key == tag("name") {
        match text_of(value) {
            Ok(s) => Ok(MessageView { name: s, ..v }),
            Err(e) => Err(e),
        }
    } else if key == tag("type") {
        match type_of(value) {
            Ok(typ) => Ok(MessageView { typ: Some(typ), ..v }),
            Err(e) => Err(e),
        }
    } else if key == tag("since") {
        match number_of(value, 10, u32::MAX as nat) {
            Ok(n) => Ok(MessageView { since: n as u32, ..v }),
            Err(e) => Err(e),
        }
    } else {
        Ok(v)
    }
}

/// A message with the first `n` attributes.
pub open spec fn message_attrs(v: MessageView, attrs: Attributes, n: int) -> Result<MessageView, ErrorView>
    decreases n,
{
    if n <= 0 {
        Ok(v)
    } else {
        match message_attrs(v, attrs, n - 1) {
            Err(e) => Err(e),
            Ok(v) => match attrs[n - 1] {
                Some((key, value)) => message_attr(v, key, value),
                None => Ok(v),
            },
        }
    }
}

/// An attribute that is wrong stays wrong.
proof fn lemma_message_attrs(v: MessageView, attrs: Attributes, a: int, b: int)
    requires
        0 <= a <= b,
        message_attrs(v, attrs, a) is Err,
    ensures
        message_attrs(v, attrs, b) == message_attrs(v, attrs, a),
    decreases b - a,
{
    if a < b {
        lemma_message_attrs(v, attrs, a, b - 1);
    }
}

/// Reads an attribute of a message.
fn set_message_attr(v: &mut Message, key: &Vec<u8>, value: &Vec<u8>) -> (r: Result<(), Error>)
    ensures
        match r {
            Ok(_) => message_attr(old(v)@, key@, value@) == Ok::<MessageView, ErrorView>(final(v)@),
            Err(e) => message_attr(old(v)@, key@, value@) == Err::<MessageView, ErrorView>(e@),
        },
{
    if is_tag(key, "name") {
        match to_text(value) {
            Ok(s) => {
                v.name = s;
            },
            Err(e) => {
                return Err(e);
            },
        }
    } else if is_tag(key, "type") {
        match parse_type(value) {
            Ok(typ) => {
                v.typ = Some(typ);
            },
            Err(e) => {
                return Err(e);
            },
        }
    } else if is_tag(key, "since") {
        match to_number(value.as_slice(), 10, u32::MAX) {
            Ok(n) => {
                v.since = n;
            },
            Err(e) => {
                return Err(e);
            },
        }
    }
    Ok(())
}

/// Reads the attributes of a message.
fn set_message_attrs(v: &mut Message, attrs: &Vec<Option<(Vec<u8>, Vec<u8>)>>) -> (r: Result<(), Error>)
    ensures
        match r {
            Ok(_) => message_attrs(old(v)@, view_attributes(attrs@), attrs@.len() as int) == Ok::<MessageView, ErrorView>(
                final(v)@,
            ),
            Err(e) => message_attrs(old(v)@, view_attributes(attrs@), attrs@.len() as int) == Err::<MessageView, ErrorView>(
                e@,
            ),
        },
{
    let ghost v0 = v@;
    let ghost avs = view_attributes(attrs@);
    let mut i: usize = 0;
    while i < attrs.len()
        invariant
            0 <= i <= attrs@.len(),
            v0 == old(v)@,
            avs == view_attributes(attrs@),
            message_attrs(v0, avs, i as int) == Ok::<MessageView, ErrorView>(v@),
        decreases attrs@.len() - i,
    {
        proof {
            assert(avs[i as int] == match attrs@[i as int] {
                Some((key, value)) => Some((key@, value@)),
                None => None,
            });
        }
        if let Some((key, value)) = &attrs[i] {
            match set_message_attr(v, key, value) {
                Ok(_) => {},
                Err(e) => {
                    proof {
                        lemma_message_attrs(v0, avs, i + 1, avs.len() as int);
                    }
                    return Err(e);
                },
            }
        }
        i = i + 1;
    }
    Ok(())
}

/// A request or an event, with what was read of it before.
pub open spec fn message_body(es: Events, pos: int, v: MessageView, end: &str) -> Parsed<MessageView>
    decreases es.len() - pos,
{
    if 0 <= pos < es.len() {
        match es[pos].kind {
            XmlKindView::Start { name, attributes } => if name == tag("description") {
                match description(es, pos + 1, attributes) {
                    None => None,
                    Some((Err(e), p)) => Some((Err(e), p)),
                    Some((Ok(x), p)) => if pos < p <= es.len() {
                        message_body(es, p, MessageView { description: Some(x), ..v }, end)
                    } else {
                        None
                    },
                }
            } else if name == tag("arg") {
                match arg(es, pos + 1, attributes) {
                    None => None,
                    Some((Err(e), p)) => Some((Err(e), p)),
                    Some((Ok(x), p)) => if pos < p <= es.len() {
                        message_body(es, p, MessageView { args: v.args + expanded(x), ..v }, end)
                    } else {
                        None
                    },
                }
            } else {
                Some((Err(unexpected_name(name)), pos + 1))
            },
            XmlKindView::End { name } if name == tag(end) => Some((Ok(v), pos + 1)),
            _ => message_body(es, pos + 1, v, end),
        }
    } else {
        None
    }
}

/// A request or an event.
pub open spec fn message(es: Events, pos: int, attrs: Attributes, end: &str) -> Parsed<MessageView> {
    match message_attrs(blank_message(), attrs, attrs.len() as int) {
        Err(e) => Some((Err(e), pos)),
        Ok(v) => message_body(es, pos, v, end),
    }
}

/// Parses a request or an event, behind its start tag.
fn parse_event_or_request(reader: &mut EventCursor<'_>, attrs: &Vec<Option<(Vec<u8>, Vec<u8>)>>, end: &str) -> (r: Option<
    Result<Message, Error>,
>)
    requires
        old(reader).wf(),
    ensures
        final(reader).wf(),
        final(reader).list == old(reader).list,
        final(reader).pos >= old(reader).pos,
        r matches Some(Ok(_)) ==> final(reader).pos > old(reader).pos,
        agrees(
            r,
            message(old(reader).events(), old(reader).pos as int, view_attributes(attrs@), end),
            final(reader).pos as int,
        ),
{
    let ghost es = reader.events();
    let ghost pos0 = reader.pos as int;
    let mut v = Message::new();
    proof {
        lemma_blank_message(v);
    }
    match set_message_attrs(&mut v, attrs) {
        Ok(_) => {},
        Err(e) => {
            return Some(Err(e));
        },
    }
    let ghost v0 = v@;
    loop
        invariant
            reader.wf(),
            reader.list == old(reader).list,
            reader.pos >= old(reader).pos,
            pos0 == old(reader).pos,
            es == reader.events(),
            message_attrs(blank_message(), view_attributes(attrs@), attrs@.len() as int) == Ok::<MessageView, ErrorView>(v0),
            message_body(es, pos0, v0, end) == message_body(es, reader.pos as int, v@, end),
        decreases es.len() - reader.pos,
    {
        let ghost pos1 = reader.pos as int;
        let ghost v1 = v@;
        let event = match reader.next() {
            Some(event) => event,
            None => {
                return None;
            },
        };
        match &event.kind {
            XmlKind::Start { name, attributes } => if is_tag(name, "description") {
                match parse_description(reader, attributes) {
                    None => {
                        return None;
                    },
                    Some(Err(e)) => {
                        return Some(Err(e));
                    },
                    Some(Ok(x)) => {
                        v.description = Some(x);
                        proof {
                            assert(v@ == MessageView { description: v@.description, ..v1 });
                        }
                    },
                }
            } else if is_tag(name, "arg") {
                match parse_arg(reader, attributes) {
                    None => {
                        return None;
                    },
                    Some(Err(e)) => {
                        return Some(Err(e));
                    },
                    Some(Ok(x)) => {
                        push_expanded(&mut v.args, x);
                        proof {
                            assert(v@ == MessageView { args: v@.args, ..v1 });
                        }
                    },
                }
            } else {
                return Some(Err(unexpected_element(name)));
            },
            XmlKind::End { name } => if is_tag(name, end) {
                return Some(Ok(v));
            },
            _ => {},
        }
    }
}

/// Interface of which nothing is said yet.
pub open spec fn blank_interface() -> InterfaceView {
    InterfaceView {
        name: Seq::empty(),
        version: 1,
        description: None,
        requests: Seq::empty(),
        events: Seq::empty(),
        enums: Seq::empty(),
    }
}

proof fn lemma_blank_interface(v: Interface)
    requires
        v.is_blank(),
    ensures
        v@ == blank_interface(),
{
    assert(v@.name =~= Seq::empty());
    assert(v@.requests =~= Seq::empty());
    assert(v@.events =~= Seq::empty());
    assert(v@.enums =~= Seq::empty());
}

/// An interface with one attribute more.
pub open spec fn interface_attr(v: InterfaceView, key: Seq<u8>, value: Seq<u8>) -> Result<InterfaceView, ErrorView> {
    if key == tag("name") {
        match text_of(value) {
            Ok(s) => Ok(InterfaceView { name: s, ..v }),
            Err(e) => Err(e),
        }
    } else if key == tag("version") {
        match number_of(value, 10, u32::MAX as nat) {
            Ok(n) => Ok(InterfaceView { version: n as u32, ..v }),
            Err(e) => Err(e),
        }
    } else {
        Ok(v)
    }
}

/// An interface with the first `n` attributes.
pub open spec fn interface_attrs(v: InterfaceView, attrs: Attributes, n: int) -> Result<InterfaceView, ErrorView>
    decreases n,
{
    if n <= 0 {
        Ok(v)
    } else {
        match interface_attrs(v, attrs, n - 1) {
            Err(e) => Err(e),
            Ok(v) => match attrs[n - 1] {
                Some((key, value)) => interface_attr(v, key, value),
                None => Ok(v),
            },
        }
    }
}

/// An attribute that is wrong stays wrong.
proof fn lemma_interface_attrs(v: InterfaceView, attrs: Attributes, a: int, b: int)
    requires
        0 <= a <= b,
        interface_attrs(v, attrs, a) is Err,
    ensures
        interface_attrs(v, attrs, b) == interface_attrs(v, attrs, a),
    decreases b - a,
{
    if a < b {
        lemma_interface_attrs(v, attrs, a, b - 1);
    }
}

/// Reads an attribute of an interface.
fn set_interface_attr(v: &mut Interface, key: &Vec<u8>, value: &Vec<u8>) -> (r: Result<(), Error>)
    ensures
        match r {
            Ok(_) => interface_attr(old(v)@, key@, value@) == Ok::<InterfaceView, ErrorView>(final(v)@),
            Err(e) => interface_attr(old(v)@, key@, value@) == Err::<InterfaceView, ErrorView>(e@),
        },
{
    if is_tag(key, "name") {
        match to_text(value) {
            Ok(s) => {
                v.name = s;
            },
            Err(e) => {
                return Err(e);
            },
        }
    } else if is_tag(key, "version") {
        match to_number(value.as_slice(), 10, u32::MAX) {
            Ok(n) => {
                v.version = n;
            },
            Err(e) => {
                return Err(e);
            },
        }
    }
    Ok(())
}

/// Reads the attributes of an interface.
fn set_interface_attrs(v: &mut Interface, attrs: &Vec<Option<(Vec<u8>, Vec<u8>)>>) -> (r: Result<(), Error>)
    ensures
        match r {
            Ok(_) => interface_attrs(old(v)@, view_attributes(attrs@), attrs@.len() as int) == Ok::<InterfaceView, ErrorView>(
                final(v)@,
            ),
            Err(e) => interface_attrs(old(v)@, view_attributes(attrs@), attrs@.len() as int) == Err::<InterfaceView, ErrorView>(
                e@,
            ),
        },
{
    let ghost v0 = v@;
    let ghost avs = view_attributes(attrs@);
    let mut i: usize = 0;
    while i < attrs.len()
        invariant
            0 <= i <= attrs@.len(),
            v0 == old(v)@,
            avs == view_attributes(attrs@),
            interface_attrs(v0, avs, i as int) == Ok::<InterfaceView, ErrorView>(v@),
        decreases attrs@.len() - i,
    {
        proof {
            assert(avs[i as int] == match attrs@[i as int] {
                Some((key, value)) => Some((key@, value@)),
                None => None,
            });
        }
        if let Some((key, value)) = &attrs[i] {
            match set_interface_attr(v, key, value) {
                Ok(_) => {},
                Err(e) => {
                    proof {
                        lemma_interface_attrs(v0, avs, i + 1, avs.len() as int);
                    }
                    return Err(e);
                },
            }
        }
        i = i + 1;
    }
    Ok(())
}

/// An interface, with what was read of it before.
pub open spec fn interface_body(es: Events, pos: int, v: InterfaceView) -> Parsed<InterfaceView>
    decreases es.len() - pos,
{
    if 0 <= pos < es.len() {
        match es[pos].kind {
            XmlKindView::Start { name, attributes } => if name == tag("description") {
                match description(es, pos + 1, attributes) {
                    None => None,
                    Some((Err(e), p)) => Some((Err(e), p)),
                    Some((Ok(x), p)) => if pos < p <= es.len() {
                        interface_body(es, p, InterfaceView { description: Some(x), ..v })
                    } else {
                        None
                    },
                }
            } else if name == tag("request") {
                match message(es, pos + 1, attributes, "request") {
                    None => None,
                    Some((Err(e), p)) => Some((Err(e), p)),
                    Some((Ok(x), p)) => if pos < p <= es.len() {
                        interface_body(es, p, InterfaceView { requests: v.requests.push(x), ..v })
                    } else {
                        None
                    },
                }
            } else if name == tag("event") {
                match message(es, pos + 1, attributes, "event") {
                    None => None,
                    Some((Err(e), p)) => Some((Err(e), p)),
                    Some((Ok(x), p)) => if pos < p <= es.len() {
                        interface_body(es, p, InterfaceView { events: v.events.push(x), ..v })
                    } else {
                        None
                    },
                }
            } else if name == tag("enum") {
                match enum_(es, pos + 1, attributes) {
                    None => None,
                    Some((Err(e), p)) => Some((Err(e), p)),
                    Some((Ok(x), p)) => if pos < p <= es.len() {
                        interface_body(es, p, InterfaceView { enums: v.enums.push(x), ..v })
                    } else {
                        None
                    },
                }
            } else {
                Some((Err(unexpected_name(name)), pos + 1))
            },
            XmlKindView::End { name } if name == tag("interface") => Some((Ok(v), pos + 1)),
            _ => interface_body(es, pos + 1, v),
        }
    } else {
        None
    }
}

/// An interface.
pub open spec fn interface(es: Events, pos: int, attrs: Attributes) -> Parsed<InterfaceView> {
    match interface_attrs(blank_interface(), attrs, attrs.len() as int) {
        Err(e) => Some((Err(e), pos)),
        Ok(v) => interface_body(es, pos, v),
    }
}

/// Parses an interface, behind its start tag.
fn parse_interface(reader: &mut EventCursor<'_>, attrs: &Vec<Option<(Vec<u8>, Vec<u8>)>>) -> (r: Option<
    Result<Interface, Error>,
>)
    requires
        old(reader).wf(),
    ensures
        final(reader).wf(),
        final(reader).list == old(reader).list,
        final(reader).pos >= old(reader).pos,
        r matches Some(Ok(_)) ==> final(reader).pos > old(reader).pos,
        agrees(
            r,
            interface(old(reader).events(), old(reader).pos as int, view_attributes(attrs@)),
            final(reader).pos as int,
        ),
{
    let ghost es = reader.events();
    let ghost pos0 = reader.pos as int;
    let mut v = Interface::new();
    proof {
        lemma_blank_interface(v);
    }
    match set_interface_attrs(&mut v, attrs) {
        Ok(_) => {},
        Err(e) => {
            return Some(Err(e));
        },
    }
    let ghost v0 = v@;
    loop
        invariant
            reader.wf(),
            reader.list == old(reader).list,
            reader.pos >= old(reader).pos,
            pos0 == old(reader).pos,
            es == reader.events(),
            interface_attrs(blank_interface(), view_attributes(attrs@), attrs@.len() as int) == Ok::<InterfaceView, ErrorView>(v0),
            interface_body(es, pos0, v0) == interface_body(es, reader.pos as int, v@),
        decreases es.len() - reader.pos,
    {
        let ghost pos1 = reader.pos as int;
        let ghost v1 = v@;
        let event = match reader.next() {
            Some(event) => event,
            None => {
                return None;
            },
        };
        match &event.kind {
            XmlKind::Start { name, attributes } => if is_tag(name, "description") {
                match parse_description(reader, attributes) {
                    None => {
                        return None;
                    },
                    Some(Err(e)) => {
                        return Some(Err(e));
                    },
                    Some(Ok(x)) => {
                        v.description = Some(x);
                        proof {
                            assert(v@ == InterfaceView { description: v@.description, ..v1 });
                        }
                    },
                }
            } else if is_tag(name, "request") {
                match parse_event_or_request(reader, attributes, "request") {
                    None => {
                        return None;
                    },
                    Some(Err(e)) => {
                        return Some(Err(e));
                    },
                    Some(Ok(x)) => {
                        v.requests.push(x);
                        proof {
                            assert(v@.requests =~= v1.requests.push(x@));
                            assert(v@ == InterfaceView { requests: v@.requests, ..v1 });
                        }
                    },
                }
            } else if is_tag(name, "event") {
                match parse_event_or_request(reader, attributes, "event") {
                    None => {
                        return None;
                    },
                    Some(Err(e)) => {
                        return Some(Err(e));
                    },
                    Some(Ok(x)) => {
                        v.events.push(x);
                        proof {
                            assert(v@.events =~= v1.events.push(x@));
                            assert(v@ == InterfaceView { events: v@.events, ..v1 });
                        }
                    },
                }
            } else if is_tag(name, "enum") {
                match parse_enum(reader, attributes) {
                    None => {
                        return None;
                    },
                    Some(Err(e)) => {
                        return Some(Err(e));
                    },
                    Some(Ok(x)) => {
                        v.enums.push(x);
                        proof {
                            assert(v@.enums =~= v1.enums.push(x@));
                            assert(v@ == InterfaceView { enums: v@.enums, ..v1 });
                        }
                    },
                }
            } else {
                return Some(Err(unexpected_element(name)));
            },
            XmlKind::End { name } => if is_tag(name, "interface") {
                return Some(Ok(v));
            },
            _ => {},
        }
    }
}

/// The copyright of a protocol, and its end tag. None if it cannot be read as
/// text.
pub open spec fn copyright(es: Events, pos: int) -> Parsed<Option<Seq<char>>> {
    if 0 <= pos < es.len() {
        match es[pos].kind {
            XmlKindView::Text { text } => copyright_end(es, pos + 1, text),
            XmlKindView::CData { bytes } => copyright_end(
                es,
                pos + 1,
                match text_of(bytes) {
                    Ok(s) => Some(s),
                    Err(_) => None,
                },
            ),
            XmlKindView::Error => Some((Err(ErrorView::Xml), pos + 1)),
            _ => Some((Err(ErrorView::IllFormed), pos + 1)),
        }
    } else {
        None
    }
}

/// The copyright of a protocol, once its end tag was read.
pub open spec fn copyright_end(es: Events, pos: int, text: Option<Seq<char>>) -> Parsed<Option<Seq<char>>> {
    match end_tag(es, pos, "copyright") {
        None => None,
        Some((Ok(_), p)) => Some((Ok(text), p)),
        Some((Err(e), p)) => Some((Err(e), p)),
    }
}

/// Parses the copyright of a protocol, behind its start tag.
fn parse_copyright(reader: &mut EventCursor<'_>) -> (r: Option<Result<Option<String>, Error>>)
    requires
        old(reader).wf(),
    ensures
        final(reader).wf(),
        final(reader).list == old(reader).list,
        r is Some ==> final(reader).pos > old(reader).pos,
        match r {
            None => copyright(old(reader).events(), old(reader).pos as int) is None,
            Some(Ok(text)) => copyright(old(reader).events(), old(reader).pos as int) == Some(
                (Ok::<Option<Seq<char>>, ErrorView>(view_text(text)), final(reader).pos as int),
            ),
            Some(Err(e)) => copyright(old(reader).events(), old(reader).pos as int) == Some(
                (Err::<Option<Seq<char>>, ErrorView>(e@), final(reader).pos as int),
            ),
        },
{
    let event = match reader.next() {
        Some(event) => event,
        None => {
            return None;
        },
    };
    let text: Option<String> = match &event.kind {
        XmlKind::Text { text } => match text {
            Some(s) => Some(s.clone()),
            None => None,
        },
        XmlKind::CData { bytes } => match to_text(bytes) {
            Ok(s) => Some(s),
            Err(_) => None,
        },
        XmlKind::Error => {
            return Some(Err(Error::Xml));
        },
        _ => {
            return Some(Err(Error::IllFormed));
        },
    };
    match extract_end_tag(reader, "copyright") {
        None => None,
        Some(Ok(_)) => Some(Ok(text)),
        Some(Err(e)) => Some(Err(e)),
    }
}

/// The first attribute with the given name that can be read, from the one with
/// number `n` on.
pub open spec fn find_attr(attrs: Attributes, name: &str, n: int) -> Option<Seq<u8>>
    decreases attrs.len() - n,
{
    if n >= attrs.len() {
        None
    } else {
        match attrs[n] {
            Some((key, value)) if key == tag(name) => Some(value),
            _ => find_attr(attrs, name, n + 1),
        }
    }
}

/// The elements of a protocol, with what was read of it before. None also if the
/// end tag of another element follows.
pub open spec fn protocol_body(es: Events, pos: int, v: ProtocolView) -> Parsed<ProtocolView>
    decreases es.len() - pos,
{
    if 0 <= pos < es.len() {
        match es[pos].kind {
            XmlKindView::Start { name, attributes } => if name == tag("copyright") {
                match copyright(es, pos + 1) {
                    None => None,
                    Some((Err(e), p)) => Some((Err(e), p)),
                    Some((Ok(x), p)) => if pos < p <= es.len() {
                        protocol_body(es, p, ProtocolView { copyright: x, ..v })
                    } else {
                        None
                    },
                }
            } else if name == tag("interface") {
                match interface(es, pos + 1, attributes) {
                    None => None,
                    Some((Err(e), p)) => Some((Err(e), p)),
                    Some((Ok(x), p)) => if pos < p <= es.len() {
                        protocol_body(es, p, ProtocolView { interfaces: v.interfaces.push(x), ..v })
                    } else {
                        None
                    },
                }
            } else if name == tag("description") {
                match description(es, pos + 1, attributes) {
                    None => None,
                    Some((Err(e), p)) => Some((Err(e), p)),
                    Some((Ok(x), p)) => if pos < p <= es.len() {
                        protocol_body(es, p, ProtocolView { description: Some(x), ..v })
                    } else {
                        None
                    },
                }
            } else {
                Some((Err(unexpected_name(name)), pos + 1))
            },
            XmlKindView::End { name } => if name == tag("protocol") {
                Some((Ok(v), pos + 1))
            } else {
                None
            },
            XmlKindView::Comment => protocol_body(es, pos + 1, v),
            _ => Some((Err(unexpected(es[pos])), pos + 1)),
        }
    } else {
        None
    }
}

/// A protocol. None also if another element stands in its place.
pub open spec fn protocol(es: Events, pos: int) -> Parsed<ProtocolView> {
    if 0 <= pos < es.len() {
        match es[pos].kind {
            XmlKindView::Start { name, attributes } => if name != tag("protocol") {
                None
            } else {
                match find_attr(attributes, "name", 0) {
                    None => Some((Err(ErrorView::NoName), pos + 1)),
                    Some(value) => match text_of(value) {
                        Err(e) => Some((Err(e), pos + 1)),
                        Ok(name) => protocol_body(
                            es,
                            pos + 1,
                            ProtocolView { name, copyright: None, description: None, interfaces: Seq::empty() },
                        ),
                    },
                }
            },
            XmlKindView::Error => Some((Err(ErrorView::Xml), pos + 1)),
            _ => Some((Err(ErrorView::UnexpectedToken(es[pos].shown)), pos + 1)),
        }
    } else {
        None
    }
}

/// The name of a protocol.
fn protocol_name(attributes: &Vec<Option<(Vec<u8>, Vec<u8>)>>) -> (r: Result<String, Error>)
    ensures
        match find_attr(view_attributes(attributes@), "name", 0) {
            None => r matches Err(Error::NoName),
            Some(value) => match r {
                Ok(s) => text_of(value) == Ok::<Seq<char>, ErrorView>(s@),
                Err(e) => text_of(value) == Err::<Seq<char>, ErrorView>(e@),
            },
        },
{
    let ghost avs = view_attributes(attributes@);
    let mut i: usize = 0;
    while i < attributes.len()
        invariant
            0 <= i <= attributes@.len(),
            avs == view_attributes(attributes@),
            find_attr(avs, "name", 0) == find_attr(avs, "name", i as int),
        decreases attributes@.len() - i,
    {
        proof {
            assert(avs[i as int] == match attributes@[i as int] {
                Some((key, value)) => Some((key@, value@)),
                None => None,
            });
        }
        if let Some((key, value)) = &attributes[i] {
            if is_tag(key, "name") {
                return to_text(value);
            }
        }
        i = i + 1;
    }
    Err(Error::NoName)
}

/// Parses a protocol.
fn parse_protocol(reader: &mut EventCursor<'_>) -> (r: Option<Result<Protocol, Error>>)
    requires
        old(reader).wf(),
    ensures
        final(reader).wf(),
        final(reader).list == old(reader).list,
        agrees(r, protocol(old(reader).events(), old(reader).pos as int), final(reader).pos as int),
{
    let ghost es = reader.events();
    let ghost pos0 = reader.pos as int;
    let event = match reader.next() {
        Some(event) => event,
        None => {
            return None;
        },
    };
    let mut v = match &event.kind {
        XmlKind::Start { name, attributes } => {
            if !is_tag(name, "protocol") {
                return None;
            }
            match protocol_name(attributes) {
                Ok(s) => Protocol::new(s),
                Err(e) => {
                    return Some(Err(e));
                },
            }
        },
        XmlKind::Error => {
            return Some(Err(Error::Xml));
        },
        _ => {
            return Some(Err(Error::UnexpectedToken(event.shown.clone())));
        },
    };
    let ghost v0 = v@;
    proof {
        assert(v@.interfaces =~= Seq::empty());
        assert(protocol(es, pos0) == protocol_body(es, pos0 + 1, v0));
    }
    loop
        invariant
            reader.wf(),
            reader.list == old(reader).list,
            es == reader.events(),
            pos0 == old(reader).pos,
            protocol(es, pos0) == protocol_body(es, reader.pos as int, v@),
        decreases es.len() - reader.pos,
    {
        let ghost v1 = v@;
        let event = match reader.next() {
            Some(event) => event,
            None => {
                return None;
            },
        };
        match &event.kind {
            XmlKind::Start { name, attributes } => if is_tag(name, "copyright") {
                match parse_copyright(reader) {
                    None => {
                        return None;
                    },
                    Some(Err(e)) => {
                        return Some(Err(e));
                    },
                    Some(Ok(x)) => {
                        v.copyright = x;
                        proof {
                            assert(v@ == ProtocolView { copyright: v@.copyright, ..v1 });
                        }
                    },
                }
            } else if is_tag(name, "interface") {
                match parse_interface(reader, attributes) {
                    None => {
                        return None;
                    },
                    Some(Err(e)) => {
                        return Some(Err(e));
                    },
                    Some(Ok(x)) => {
                        v.interfaces.push(x);
                        proof {
                            assert(v@.interfaces =~= v1.interfaces.push(x@));
                            assert(v@ == ProtocolView { interfaces: v@.interfaces, ..v1 });
                        }
                    },
                }
            } else if is_tag(name, "description") {
                match parse_description(reader, attributes) {
                    None => {
                        return None;
                    },
                    Some(Err(e)) => {
                        return Some(Err(e));
                    },
                    Some(Ok(x)) => {
                        v.description = Some(x);
                        proof {
                            assert(v@ == ProtocolView { description: v@.description, ..v1 });
                        }
                    },
                }
            } else {
                return Some(Err(unexpected_element(name)));
            },
            XmlKind::End { name } => if is_tag(name, "protocol") {
                return Some(Ok(v));
            } else {
                return None;
            },
            // Ignore comments.
            XmlKind::Comment => {},
            _ => {
                return Some(Err(unexpected_event(event)));
            },
        }
    }
}

/// The protocol that a document describes, behind its first event, which is the
/// XML declaration. The end of a document is read again where it is the first
/// event.
pub open spec fn document_protocol(es: Events) -> Option<Result<ProtocolView, ErrorView>> {
    match protocol(
        es,
        if es.len() > 0 && !(es[0].kind is Eof) {
            1
        } else {
            0
        },
    ) {
        Some((r, _)) => Some(r),
        None => None,
    }
}

/// What came of parsing a document agrees with what should come of it.
pub open spec fn result_agrees(r: Option<Result<Protocol, Error>>, parsed: Option<Result<ProtocolView, ErrorView>>) -> bool {
    match r {
        None => parsed is None,
        Some(Ok(proto)) => parsed == Some(Ok::<ProtocolView, ErrorView>(proto@)),
        Some(Err(e)) => parsed == Some(Err::<ProtocolView, ErrorView>(e@)),
    }
}

/// Parses the events of a document. Returns None if the document is cut off within
/// an interface, if its outermost element is no protocol, or if the events stop before
/// the document is parsed.
pub fn parse_events(events: &Vec<XmlEvent>) -> (r: Option<Result<Protocol, Error>>)
    ensures
        result_agrees(r, document_protocol(view_events(events@))),
{
    let start: usize = if events.len() > 0 && !matches!(events[0].kind, XmlKind::Eof) {
        1
    } else {
        0
    };
    proof {
        assert(events@.len() > 0 ==> view_events(events@)[0] == events@[0]@);
    }
    let mut reader = EventCursor { list: events, pos: start };
    parse_protocol(&mut reader)
}

/// Parses a protocol file. Returns None if it is cut off within an interface, if its
/// outermost element is no protocol, or if a document type declaration without a name
/// comes before the end of the protocol.
pub fn parse(document: &[u8]) -> (r: Option<Result<Protocol, Error>>)
    ensures
        exists|list: Events| #[trigger]
            is_document(document@, list) && result_agrees(r, document_protocol(list)),
{
    let events = read_events(document);
    let r = parse_events(&events);
    proof {
        let list = view_events(events@);
        assert(is_document(document@, list) && result_agrees(r, document_protocol(list)));
    }
    r
}

} // verus!
