//! The events of an XML document, as [`quick_xml`] reads them.
use quick_xml::events::Event;
use quick_xml::reader::Reader;
use vstd::prelude::*;

verus! {

/// What an event is.
#[derive(Debug)]
pub enum XmlKind {
    /// An element begins. Attributes that cannot be read are None. Names are
    /// without a namespace.
    Start { name: Vec<u8>, attributes: Vec<Option<(Vec<u8>, Vec<u8>)>> },
    /// An element ends.
    End { name: Vec<u8> },
    /// Text, without white space at its ends, and None if it cannot be unescaped.
    Text { text: Option<String> },
    CData { bytes: Vec<u8> },
    Comment,
    /// The document ends.
    Eof,
    /// Another event.
    Other,
    /// The document cannot be read here.
    Error,
}

/// An event of a document.
#[derive(Debug)]
pub struct XmlEvent {
    pub kind: XmlKind,
    /// The event or the error as text, for error messages.
    pub shown: String,
    /// How many bytes of the document are left behind the event.
    pub left: usize,
}

/// What an [`XmlKind`] says.
pub enum XmlKindView {
    Start { name: Seq<u8>, attributes: Seq<Option<(Seq<u8>, Seq<u8>)>> },
    End { name: Seq<u8> },
    Text { text: Option<Seq<char>> },
    CData { bytes: Seq<u8> },
    Comment,
    Eof,
    Other,
    Error,
}

/// What an [`XmlEvent`] says.
pub struct XmlEventView {
    pub kind: XmlKindView,
    pub shown: Seq<char>,
    pub left: nat,
}

/// What attributes say.
pub open spec fn view_attributes(attributes: Seq<Option<(Vec<u8>, Vec<u8>)>>) -> Seq<Option<(Seq<u8>, Seq<u8>)>> {
    attributes.map_values(
        |a: Option<(Vec<u8>, Vec<u8>)>|
            match a {
                Some((key, value)) => Some((key@, value@)),
                None => None,
            },
    )
}

impl View for XmlKind {
    type V = XmlKindView;

    open spec fn view(&self) -> XmlKindView {
        match *self {
            XmlKind::Start { name, attributes } => XmlKindView::Start {
                name: name@,
                attributes: view_attributes(attributes@),
            },
            XmlKind::End { name } => XmlKindView::End { name: name@ },
            XmlKind::Text { text } => XmlKindView::Text {
                text: match text {
                    Some(text) => Some(text@),
                    None => None,
                },
            },
            XmlKind::CData { bytes } => XmlKindView::CData { bytes: bytes@ },
            XmlKind::Comment => XmlKindView::Comment,
            XmlKind::Eof => XmlKindView::Eof,
            XmlKind::Other => XmlKindView::Other,
            XmlKind::Error => XmlKindView::Error,
        }
    }
}

impl View for XmlEvent {
    type V = XmlEventView;

    open spec fn view(&self) -> XmlEventView {
        XmlEventView { kind: self.kind@, shown: self.shown@, left: self.left as nat }
    }
}

/// The reader of the `quick_xml` crate.
#[verifier::external_type_specification]
#[verifier::external_body]
#[verifier::reject_recursive_types(R)]
pub struct ExReader<R>(quick_xml::reader::Reader<R>);

/// The events that [`quick_xml`] reads in a document, by number. There are as
/// many as one asks for: at the end, the end is read again and again.
pub uninterp spec fn document_events(document: Seq<u8>) -> Map<nat, XmlEventView>;

/// How far a reader has come.
pub struct Progress {
    /// The document that is read.
    pub document: Seq<u8>,
    /// How many events of it were read.
    pub events: nat,
}

/// How far a reader has come.
pub uninterp spec fn progress(reader: Reader<&[u8]>) -> Progress;

/// The event that a reader reads next.
pub open spec fn next_event(reader: Reader<&[u8]>) -> XmlEventView {
    document_events(progress(reader).document)[progress(reader).events]
}

/// White space between the parts of a document.
pub open spec fn is_space(b: u8) -> bool {
    b == 32 || b == 13 || b == 10 || b == 9
}

/// The letter, in either case.
pub open spec fn is_letter(b: u8, upper: u8) -> bool {
    b == upper || b == upper + 32
}

/// What follows the `<` of a document type declaration without a name.
pub open spec fn nameless_doctype(bytes: Seq<u8>) -> bool {
    &&& bytes.len() >= 8
    &&& bytes[0] == 33
    &&& is_letter(bytes[1], 68)
    &&& is_letter(bytes[2], 79)
    &&& is_letter(bytes[3], 67)
    &&& is_letter(bytes[4], 84)
    &&& is_letter(bytes[5], 89)
    &&& is_letter(bytes[6], 80)
    &&& is_letter(bytes[7], 69)
    &&& exists|end: int|
        8 <= end < bytes.len() && #[trigger] bytes[end] == 62 && forall|i: int|
            8 <= i < end ==> is_space(#[trigger] bytes[i])
}

/// A document type declaration without a name comes next, behind white space.
pub open spec fn nameless_doctype_next(bytes: Seq<u8>) -> bool {
    exists|start: int|
        0 <= start < bytes.len() && #[trigger] bytes[start] == 60 && (forall|i: int|
            0 <= i < start ==> is_space(#[trigger] bytes[i])) && nameless_doctype(bytes.skip(start + 1))
}

/// The document without the byte order mark in front of it.
pub open spec fn without_mark(document: Seq<u8>) -> Seq<u8> {
    if document.len() >= 3 && document[0] == 0xef && document[1] == 0xbb && document[2] == 0xbf {
        document.skip(3)
    } else {
        document
    }
}

/// Behind an event comes a document type declaration without a name. The `<` behind a
/// text was read with the text. The end of an empty element comes before what is behind
/// the element. Nothing comes behind an error.
pub open spec fn stuck_behind(document: Seq<u8>, event: XmlEventView) -> bool {
    let end = document.len() - event.left;
    match event.kind {
        XmlKindView::Eof | XmlKindView::Error => false,
        XmlKindView::Text { .. } => nameless_doctype(document.skip(end)),
        XmlKindView::Start { .. } => !(end >= 2 && document[end - 2] == 47) && nameless_doctype_next(
            document.skip(end),
        ),
        _ => nameless_doctype_next(document.skip(end)),
    }
}

/// The next of the events of a document, of which so many were read, is a document type
/// declaration without a name. It cannot be read.
pub open spec fn stuck(document: Seq<u8>, events: nat) -> bool {
    if events == 0 {
        nameless_doctype_next(without_mark(document))
    } else {
        stuck_behind(document, document_events(document)[(events - 1) as nat])
    }
}

/// The attributes of an element that begins. Other events have none.
pub open spec fn attributes_of(kind: XmlKindView) -> Seq<Option<(Seq<u8>, Seq<u8>)>> {
    match kind {
        XmlKindView::Start { attributes, .. } => attributes,
        _ => Seq::empty(),
    }
}

/// What an event is, where attributes are left out.
pub open spec fn without_attributes(kind: XmlKindView) -> XmlKindView {
    match kind {
        XmlKindView::Start { name, .. } => XmlKindView::Start { name, attributes: Seq::empty() },
        other => other,
    }
}

/// `Reader::from_reader`, on bytes in memory, with `trim_text` and
/// `expand_empty_elements`: nothing of the document was read yet, and its end is among
/// its events, unless there is one before that cannot be read. For an event takes bytes
/// of the document, or is the end of an empty element, which took bytes when it began,
/// and what follows an error is the end.
#[verifier::external_body]
fn open_document(document: &[u8]) -> (r: Reader<&[u8]>)
    ensures
        progress(r) == (Progress { document: document@, events: 0 }),
        exists|n: nat|
            (#[trigger] document_events(progress(r).document)[n]).kind is Eof || stuck(progress(r).document, n),
{
    let mut reader = Reader::from_reader(document);
    reader.trim_text(true).expand_empty_elements(true);
    reader
}

/// `Reader::read_event_into` on a copy of the reader, and `BytesStart::attributes`:
/// the attributes of the next event, if an element begins there. Attributes that
/// cannot be read are None. A document type declaration without a name is left out,
/// which the reader asserts that there is not.
#[verifier::external_body]
fn next_attributes(reader: &Reader<&[u8]>) -> (r: Vec<Option<(Vec<u8>, Vec<u8>)>>)
    requires
        !stuck(progress(*reader).document, progress(*reader).events),
    ensures
        view_attributes(r@) == attributes_of(next_event(*reader).kind),
{
    let mut buf = Vec::new();
    match reader.clone().read_event_into(&mut buf) {
        Ok(Event::Start(b)) => b.attributes().map(
            |a| a.ok().map(|a| (a.key.local_name().as_ref().to_vec(), a.value.into_owned())),
        ).collect(),
        _ => Vec::new(),
    }
}

/// `Reader::read_event_into` on a copy of the reader: the next event or the error as
/// text. A document type declaration without a name is left out.
#[verifier::external_body]
fn next_shown(reader: &Reader<&[u8]>) -> (r: String)
    requires
        !stuck(progress(*reader).document, progress(*reader).events),
    ensures
        r@ == next_event(*reader).shown,
{
    let mut buf = Vec::new();
    reader.clone().read_event_into(&mut buf).map_or_else(|e| format!("{e:?}"), |e| format!("{e:?}"))
}

/// `Reader::read_event_into`: the next event, without its attributes. The names of
/// elements are taken out of it, and the content of texts. A document type declaration
/// without a name is left out.
#[verifier::external_body]
fn read_kind(reader: &mut Reader<&[u8]>) -> (r: XmlKind)
    requires
        !stuck(progress(*old(reader)).document, progress(*old(reader)).events),
    ensures
        r@ == without_attributes(next_event(*old(reader)).kind),
        progress(*final(reader)) == (Progress {
            document: progress(*old(reader)).document,
            events: progress(*old(reader)).events + 1,
        }),
{
    let mut buf = Vec::new();
    match reader.read_event_into(&mut buf) {
        Ok(Event::Start(b)) => XmlKind::Start { name: b.local_name().as_ref().to_vec(), attributes: Vec::new() },
        Ok(Event::End(b)) => XmlKind::End { name: b.local_name().as_ref().to_vec() },
        Ok(Event::Text(t)) => XmlKind::Text { text: t.unescape().ok().map(|s| s.into_owned()) },
        Ok(Event::CData(c)) => XmlKind::CData { bytes: c.into_inner().into_owned() },
        Ok(Event::Comment(_)) => XmlKind::Comment,
        Ok(Event::Eof) => XmlKind::Eof,
        Ok(_) => XmlKind::Other,
        Err(_) => XmlKind::Error,
    }
}

/// `Reader::get_ref`: what is left of the document, which is its end. Only how much it
/// is is stated, behind the events that were read.
#[verifier::external_body]
fn bytes_left(reader: &Reader<&[u8]>) -> (r: usize)
    ensures
        r <= progress(*reader).document.len(),
        progress(*reader).events > 0 ==> r == document_events(progress(*reader).document)[(progress(*reader).events
            - 1) as nat].left,
{
    reader.get_ref().len()
}

/// Reads the next event.
fn read_event(reader: &mut Reader<&[u8]>) -> (r: XmlEvent)
    requires
        !stuck(progress(*old(reader)).document, progress(*old(reader)).events),
    ensures
        r@ == next_event(*old(reader)),
        r.left <= progress(*old(reader)).document.len(),
        progress(*final(reader)) == (Progress {
            document: progress(*old(reader)).document,
            events: progress(*old(reader)).events + 1,
        }),
{
    let attributes = next_attributes(reader);
    let shown = next_shown(reader);
    let kind = match read_kind(reader) {
        XmlKind::Start { name, .. } => XmlKind::Start { name, attributes },
        other => other,
    };
    XmlEvent { kind, shown, left: bytes_left(reader) }
}

/// Tells whether a letter is the one, in either case.
fn same_letter(b: u8, upper: u8) -> (r: bool)
    requires
        upper <= 90,
    ensures
        r == is_letter(b, upper),
{
    b == upper || b == upper + 32
}

/// How much white space there is from a position on.
fn spaces(bytes: &[u8], start: usize) -> (r: usize)
    requires
        start <= bytes@.len(),
    ensures
        start <= r <= bytes@.len(),
        forall|i: int| start <= i < r ==> is_space(#[trigger] bytes@[i]),
        r < bytes@.len() ==> !is_space(bytes@[r as int]),
{
    let mut i: usize = start;
    while i < bytes.len() && (bytes[i] == 32 || bytes[i] == 13 || bytes[i] == 10 || bytes[i] == 9)
        invariant
            start <= i <= bytes@.len(),
            forall|j: int| start <= j < i ==> is_space(#[trigger] bytes@[j]),
        decreases bytes@.len() - i,
    {
        i = i + 1;
    }
    i
}

/// Tells whether a document type declaration without a name comes behind the `<` before
/// a position.
fn is_nameless_doctype(bytes: &[u8], start: usize) -> (r: bool)
    requires
        start <= bytes@.len(),
    ensures
        r == nameless_doctype(bytes@.skip(start as int)),
{
    let ghost rest = bytes@.skip(start as int);
    if bytes.len() - start < 8 || bytes[start] != 33 || !same_letter(bytes[start + 1], 68) || !same_letter(
        bytes[start + 2],
        79,
    ) || !same_letter(bytes[start + 3], 67) || !same_letter(bytes[start + 4], 84) || !same_letter(
        bytes[start + 5],
        89,
    ) || !same_letter(bytes[start + 6], 80) || !same_letter(bytes[start + 7], 69) {
        return false;
    }
    let end: usize = spaces(bytes, start + 8);
    let r = end < bytes.len() && bytes[end] == 62;
    proof {
        if r {
            assert(rest[end - start] == 62);
            assert forall|i: int| 8 <= i < end - start implies is_space(#[trigger] rest[i]) by {
                assert(rest[i] == bytes@[start + i]);
            }
        } else if exists|e: int|
            8 <= e < rest.len() && #[trigger] rest[e] == 62 && forall|i: int|
                8 <= i < e ==> is_space(#[trigger] rest[i]) {
            let e = choose|e: int|
                8 <= e < rest.len() && #[trigger] rest[e] == 62 && forall|i: int|
                    8 <= i < e ==> is_space(#[trigger] rest[i]);
            assert(rest[e] == bytes@[start + e]);
            if start + e < end {
                assert(is_space(bytes@[start + e]));
            } else if end < start + e {
                assert(is_space(rest[end - start]));
            }
        }
    }
    r
}

/// Tells whether a document type declaration without a name comes next, behind white
/// space.
fn is_nameless_doctype_next(bytes: &[u8], start: usize) -> (r: bool)
    requires
        start <= bytes@.len(),
    ensures
        r == nameless_doctype_next(bytes@.skip(start as int)),
{
    let ghost rest = bytes@.skip(start as int);
    let open: usize = spaces(bytes, start);
    let r = open < bytes.len() && bytes[open] == 60 && is_nameless_doctype(bytes, open + 1);
    proof {
        if open < bytes@.len() {
            assert(rest.skip(open - start + 1) =~= bytes@.skip(open + 1));
            assert(rest[open - start] == bytes@[open as int]);
        }
        assert forall|i: int| 0 <= i < open - start implies is_space(#[trigger] rest[i]) by {
            assert(rest[i] == bytes@[start + i]);
        }
        assert forall|s: int|
            0 <= s < rest.len() && #[trigger] rest[s] == 60 && (forall|i: int|
                0 <= i < s ==> is_space(#[trigger] rest[i])) implies s == open - start by {
            assert(rest[s] == bytes@[start + s]);
            if s < open - start {
                assert(is_space(rest[s]));
            } else if open - start < s {
                assert(is_space(rest[open - start]));
            }
        }
    }
    r
}

/// Tells whether what comes next in a document cannot be read. `last` is the event that
/// was read last.
fn is_stuck(document: &[u8], last: Option<&XmlEvent>) -> (r: bool)
    requires
        last matches Some(event) ==> event.left <= document@.len(),
    ensures
        r == match last {
            Some(event) => stuck_behind(document@, event@),
            None => nameless_doctype_next(without_mark(document@)),
        },
{
    let event = match last {
        Some(event) => event,
        None => {
            let marked = document.len() >= 3 && document[0] == 0xef && document[1] == 0xbb && document[2] == 0xbf;
            let start: usize = if marked {
                3
            } else {
                0
            };
            proof {
                assert(document@.skip(0) =~= document@);
            }
            return is_nameless_doctype_next(document, start);
        },
    };
    let end: usize = document.len() - event.left;
    match &event.kind {
        XmlKind::Eof | XmlKind::Error => false,
        XmlKind::Text { .. } => is_nameless_doctype(document, end),
        XmlKind::Start { .. } => !(end >= 2 && document[end - 2] == 47) && is_nameless_doctype_next(document, end),
        _ => is_nameless_doctype_next(document, end),
    }
}

/// What events say.
pub open spec fn view_events(events: Seq<XmlEvent>) -> Seq<XmlEventView> {
    events.map_values(|e: XmlEvent| e@)
}

/// The list has the events of a document, up to its end, or up to one that cannot be
/// read.
pub open spec fn is_document(document: Seq<u8>, list: Seq<XmlEventView>) -> bool {
    &&& forall|i: int| 0 <= i < list.len() ==> #[trigger] list[i] == document_events(document)[i as nat]
    &&& forall|i: int| 0 <= i < list.len() - 1 ==> !((#[trigger] list[i]).kind is Eof)
    &&& forall|n: nat| n < list.len() ==> !#[trigger] stuck(document, n)
    &&& (list.len() > 0 && list.last().kind is Eof) || stuck(document, list.len())
}

/// A document has one list of events.
pub proof fn document_is_unique(document: Seq<u8>, a: Seq<XmlEventView>, b: Seq<XmlEventView>)
    requires
        is_document(document, a),
        is_document(document, b),
    ensures
        a == b,
{
    if a.len() < b.len() {
        assert(!stuck(document, a.len()));
        assert(b[a.len() - 1] == a[a.len() - 1]);
    }
    if b.len() < a.len() {
        assert(!stuck(document, b.len()));
        assert(a[b.len() - 1] == b[b.len() - 1]);
    }
    assert(a =~= b);
}

/// Reads the events of a document, up to its end. A document type declaration without a
/// name cannot be read: there are no events from there on.
pub fn read_events(document: &[u8]) -> (r: Vec<XmlEvent>)
    ensures
        is_document(document@, view_events(r@)),
{
    let ghost all = document_events(document@);
    let mut reader = open_document(document);
    let mut list: Vec<XmlEvent> = Vec::new();
    let ghost end = choose|n: nat| (#[trigger] all[n]).kind is Eof || stuck(document@, n);
    loop
        invariant_except_break
            all == document_events(document@),
            all[end].kind is Eof || stuck(document@, end),
            list@.len() <= end,
            progress(reader) == (Progress { document: document@, events: list@.len() }),
            forall|i: int|
                0 <= i < list@.len() ==> {
                    &&& (#[trigger] list@[i])@ == all[i as nat]
                    &&& !(list@[i]@.kind is Eof)
                    &&& list@[i].left <= document@.len()
                },
            forall|n: nat| n < list@.len() ==> !#[trigger] stuck(document@, n),
        ensures
            is_document(document@, view_events(list@)),
        decreases end - list@.len(),
    {
        let last = if list.len() > 0 {
            Some(&list[list.len() - 1])
        } else {
            None
        };
        let no_more = is_stuck(document, last);
        proof {
            assert(no_more == stuck(document@, list@.len()));
        }
        let ghost before = list@;
        let ended = if no_more {
            true
        } else {
            let event = read_event(&mut reader);
            let eof = matches!(event.kind, XmlKind::Eof);
            list.push(event);
            eof
        };
        if ended {
            proof {
                let views = view_events(list@);
                assert forall|i: int| 0 <= i < views.len() implies #[trigger] views[i] == all[i as nat] by {
                    assert(views[i] == list@[i]@);
                }
                assert forall|i: int| 0 <= i < views.len() - 1 implies !((#[trigger] views[i]).kind is Eof) by {
                    assert(views[i] == list@[i]@);
                    assert(list@[i] == before[i]);
                }
                if !no_more {
                    assert(views.last() == list@.last()@);
                }
            }
            break;
        }
    }
    list
}

/// A document type declaration with a name can be read: neither white space nor the end of
/// the declaration is the first thing behind the white space that follows `DOCTYPE`. So can
/// all that is no such declaration.
pub proof fn declarations_with_names_are_read(bytes: Seq<u8>, name: int)
    requires
        8 <= name < bytes.len(),
        !is_space(bytes[name]),
        bytes[name] != '>' as u8,
        forall|i: int| 8 <= i < name ==> is_space(#[trigger] bytes[i]),
    ensures
        !nameless_doctype(bytes),
{
    if nameless_doctype(bytes) {
        let end = choose|end: int|
            8 <= end < bytes.len() && #[trigger] bytes[end] == 62 && forall|i: int|
                8 <= i < end ==> is_space(#[trigger] bytes[i]);
        if end < name {
            assert(is_space(bytes[end]));
        } else if name < end {
            assert(is_space(bytes[name]));
        }
    }
}

/// Only what begins with an exclamation mark behind a `<` is a declaration.
pub proof fn elements_are_read(bytes: Seq<u8>)
    ensures
        bytes.len() > 0 && bytes[0] != '!' as u8 ==> !nameless_doctype(bytes),
        bytes.len() > 1 && bytes[0] == '<' as u8 && bytes[1] != '!' as u8 ==> !nameless_doctype_next(bytes),
        bytes.len() > 0 && bytes[0] != '<' as u8 && !is_space(bytes[0]) ==> !nameless_doctype_next(bytes),
        bytes.len() == 0 ==> !nameless_doctype_next(bytes),
{
    if nameless_doctype_next(bytes) {
        let start = choose|start: int|
            0 <= start < bytes.len() && #[trigger] bytes[start] == 60 && (forall|i: int|
                0 <= i < start ==> is_space(#[trigger] bytes[i])) && nameless_doctype(bytes.skip(start + 1));
        if start > 0 {
            assert(is_space(bytes[0]));
        } else {
            assert(bytes.skip(1)[0] == bytes[1]);
        }
    }
}

/// Nothing is stuck behind the end of a document, or behind an error.
pub proof fn ends_are_not_stuck(document: Seq<u8>, event: XmlEventView)
    ensures
        event.kind is Eof || event.kind is Error ==> !stuck_behind(document, event),
        event.left == 0 ==> !stuck_behind(document, event),
{
    if event.left == 0 {
        let rest = document.skip(document.len() as int);
        assert(rest.len() == 0);
    }
}

} // verus!
