//! What parsing a protocol file is for: the protocol that was written down is what is read.
use vstd::prelude::*;
use vstd::string::*;
use vstd::utf8::{encode_utf8, encode_utf8_decode_utf8, encode_utf8_valid_utf8};
use crate::spec_parser::parse::{
    arg, arg_attr, arg_attrs, arg_body, blank_arg, blank_entry, blank_enum_, blank_interface, blank_message, copyright, description, description_summary, description_text, document_protocol, entry, entry_attr,
    entry_attrs, entry_body, entry_value, enum_, enum__attr, enum__attrs, enum__body, expanded, find_attr, interface,
    interface_attr, interface_attrs, interface_body, message, message_attr, message_attrs, message_body, number_of,
    protocol, protocol_body, summary_of, tag, text_of, type_of, Attributes, ErrorView, Events,
};
use crate::spec_parser::protocol::{
    view_description, view_text, Arg, ArgView, EntryView, Enum, EnumView, Interface, InterfaceView, Message, MessageView,
    Protocol, ProtocolView, Type,
};
use crate::spec_parser::xml::{XmlEvent, XmlKind, XmlKindView};
use crate::text::{decimal, digit, digit_value, digits_value, lemma_ascii_prefix, unsigned_part};

verus! {

/// If the argument is an object of any interface, the two arguments right before it are the
/// name and the version of its interface: a string with the name `interface`, and then a
/// number with the name `version`.
pub open spec fn spelled_out_at(args: Seq<ArgView>, k: int) -> bool {
    args[k].typ == Type::NewId && args[k].interface is None ==> {
        &&& k >= 2
        &&& args[k - 2].typ == Type::String
        &&& args[k - 2].name == "interface"@
        &&& args[k - 2].enum_ is None
        &&& args[k - 1].typ == Type::Uint
        &&& args[k - 1].name == "version"@
        &&& args[k - 1].enum_ is None
    }
}

/// Each argument that is an object of any interface comes with the name and the version of
/// its interface.
pub open spec fn new_ids_spelled_out(args: Seq<ArgView>) -> bool {
    forall|k: int| 0 <= k < args.len() ==> #[trigger] spelled_out_at(args, k)
}

/// The arguments of an element are appended in the order of the wire.
proof fn lemma_spelled_out(args: Seq<ArgView>, more: ArgView)
    requires
        new_ids_spelled_out(args),
    ensures
        new_ids_spelled_out(args + expanded(more)),
{
    let all = args + expanded(more);
    assert forall|k: int| 0 <= k < all.len() implies #[trigger] spelled_out_at(all, k) by {
        if k < args.len() {
            assert(spelled_out_at(args, k));
        } else {
            assert(all[k] == expanded(more)[k - args.len()]);
            if k == args.len() + 2 {
                assert(all[k - 1] == expanded(more)[1]);
                assert(all[k - 2] == expanded(more)[0]);
            }
        }
    }
}

proof fn lemma_message_body_spelled_out(es: Events, pos: int, v: MessageView, end: &str)
    requires
        new_ids_spelled_out(v.args),
    ensures
        message_body(es, pos, v, end) matches Some((Ok(m), _)) ==> new_ids_spelled_out(m.args),
    decreases es.len() - pos,
{
    if 0 <= pos < es.len() {
        match es[pos].kind {
            XmlKindView::Start { name, attributes } => {
                if name == tag("description") {
                    if let Some((Ok(x), p)) = description(es, pos + 1, attributes) {
                        if pos < p <= es.len() {
                            lemma_message_body_spelled_out(es, p, MessageView { description: Some(x), ..v }, end);
                        }
                    }
                } else if name == tag("arg") {
                    if let Some((Ok(x), p)) = arg(es, pos + 1, attributes) {
                        if pos < p <= es.len() {
                            lemma_spelled_out(v.args, x);
                            lemma_message_body_spelled_out(es, p, MessageView { args: v.args + expanded(x), ..v }, end);
                        }
                    }
                }
            },
            _ => {
                lemma_message_body_spelled_out(es, pos + 1, v, end);
            },
        }
    }
}

/// Reading attributes of a message adds no arguments.
proof fn lemma_no_args(v: MessageView, attrs: Attributes, n: int)
    ensures
        message_attrs(v, attrs, n) matches Ok(w) ==> w.args == v.args,
    decreases n,
{
    if n > 0 {
        lemma_no_args(v, attrs, n - 1);
    }
}

/// In each request or event that is read, whatever is written around its arguments, an
/// object of any interface comes with the name and the version of its interface, in the
/// order of the wire.
pub proof fn new_ids_come_with_interface_and_version(es: Events, pos: int, attrs: Attributes, end: &str)
    ensures
        message(es, pos, attrs, end) matches Some((Ok(m), _)) ==> new_ids_spelled_out(m.args),
{
    let n = attrs.len() as int;
    lemma_no_args(blank_message(), attrs, n);
    if let Ok(v) = message_attrs(blank_message(), attrs, n) {
        lemma_message_body_spelled_out(es, pos, v, end);
    }
}

/// All messages of an interface have their arguments in the order of the wire.
pub open spec fn interface_spelled_out(iface: InterfaceView) -> bool {
    &&& forall|i: int| 0 <= i < iface.requests.len() ==> new_ids_spelled_out((#[trigger] iface.requests[i]).args)
    &&& forall|i: int| 0 <= i < iface.events.len() ==> new_ids_spelled_out((#[trigger] iface.events[i]).args)
}

proof fn lemma_interface_body_spelled_out(es: Events, pos: int, v: InterfaceView)
    requires
        interface_spelled_out(v),
    ensures
        interface_body(es, pos, v) matches Some((Ok(r), _)) ==> interface_spelled_out(r),
    decreases es.len() - pos,
{
    if 0 <= pos < es.len() {
        match es[pos].kind {
            XmlKindView::Start { name, attributes } => {
                if name == tag("description") {
                    if let Some((Ok(x), p)) = description(es, pos + 1, attributes) {
                        if pos < p <= es.len() {
                            lemma_interface_body_spelled_out(es, p, InterfaceView { description: Some(x), ..v });
                        }
                    }
                } else if name == tag("request") {
                    new_ids_come_with_interface_and_version(es, pos + 1, attributes, "request");
                    if let Some((Ok(x), p)) = message(es, pos + 1, attributes, "request") {
                        if pos < p <= es.len() {
                            lemma_interface_body_spelled_out(es, p, InterfaceView { requests: v.requests.push(x), ..v });
                        }
                    }
                } else if name == tag("event") {
                    new_ids_come_with_interface_and_version(es, pos + 1, attributes, "event");
                    if let Some((Ok(x), p)) = message(es, pos + 1, attributes, "event") {
                        if pos < p <= es.len() {
                            lemma_interface_body_spelled_out(es, p, InterfaceView { events: v.events.push(x), ..v });
                        }
                    }
                } else if name == tag("enum") {
                    if let Some((Ok(x), p)) = enum_(es, pos + 1, attributes) {
                        if pos < p <= es.len() {
                            lemma_interface_body_spelled_out(es, p, InterfaceView { enums: v.enums.push(x), ..v });
                        }
                    }
                }
            },
            _ => {
                lemma_interface_body_spelled_out(es, pos + 1, v);
            },
        }
    }
}

proof fn lemma_no_messages(v: InterfaceView, attrs: Attributes, n: int)
    ensures
        interface_attrs(v, attrs, n) matches Ok(w) ==> w.requests == v.requests && w.events == v.events,
    decreases n,
{
    if n > 0 {
        lemma_no_messages(v, attrs, n - 1);
    }
}

proof fn lemma_protocol_body_spelled_out(es: Events, pos: int, v: ProtocolView)
    requires
        forall|i: int| 0 <= i < v.interfaces.len() ==> interface_spelled_out(#[trigger] v.interfaces[i]),
    ensures
        protocol_body(es, pos, v) matches Some((Ok(r), _)) ==> forall|i: int|
            0 <= i < r.interfaces.len() ==> interface_spelled_out(#[trigger] r.interfaces[i]),
    decreases es.len() - pos,
{
    if 0 <= pos < es.len() {
        match es[pos].kind {
            XmlKindView::Start { name, attributes } => {
                if name == tag("copyright") {
                    if let Some((Ok(x), p)) = copyright(es, pos + 1) {
                        if pos < p <= es.len() {
                            lemma_protocol_body_spelled_out(es, p, ProtocolView { copyright: x, ..v });
                        }
                    }
                } else if name == tag("interface") {
                    let n = attributes.len() as int;
                    lemma_no_messages(blank_interface(), attributes, n);
                    if let Ok(w) = interface_attrs(blank_interface(), attributes, n) {
                        lemma_interface_body_spelled_out(es, pos + 1, w);
                    }
                    if let Some((Ok(x), p)) = interface(es, pos + 1, attributes) {
                        if pos < p <= es.len() {
                            lemma_protocol_body_spelled_out(
                                es,
                                p,
                                ProtocolView { interfaces: v.interfaces.push(x), ..v },
                            );
                        }
                    }
                } else if name == tag("description") {
                    if let Some((Ok(x), p)) = description(es, pos + 1, attributes) {
                        if pos < p <= es.len() {
                            lemma_protocol_body_spelled_out(es, p, ProtocolView { description: Some(x), ..v });
                        }
                    }
                }
            },
            XmlKindView::Comment => {
                lemma_protocol_body_spelled_out(es, pos + 1, v);
            },
            _ => {},
        }
    }
}

/// In each protocol that is read, all arguments of all messages are in the order of the
/// wire.
pub proof fn protocols_are_in_wire_order(es: Events)
    ensures
        document_protocol(es) matches Some(Ok(proto)) ==> forall|i: int|
            0 <= i < proto.interfaces.len() ==> interface_spelled_out(#[trigger] proto.interfaces[i]),
{
    let pos: int = if es.len() > 0 && !(es[0].kind is Eof) {
        1
    } else {
        0
    };
    if 0 <= pos < es.len() {
        if let XmlKindView::Start { name, attributes } = es[pos].kind {
            if let Some(value) = find_attr(attributes, "name", 0) {
                if let Ok(name) = text_of(value) {
                    lemma_protocol_body_spelled_out(
                        es,
                        pos + 1,
                        ProtocolView { name, copyright: None, description: None, interfaces: Seq::empty() },
                    );
                }
            }
        }
    }
}

/// Texts that differ are written with different bytes.
proof fn lemma_tag_ne(a: &str, b: &str)
    requires
        a@ != b@,
    ensures
        tag(a) != tag(b),
{
    encode_utf8_decode_utf8(a@);
    encode_utf8_decode_utf8(b@);
}

/// The names that are told apart.
proof fn lemma_entry_names()
    ensures
        tag("name") != tag("value"),
        tag("name") != tag("since"),
        tag("name") != tag("summary"),
        tag("value") != tag("since"),
        tag("value") != tag("summary"),
        tag("since") != tag("summary"),
{
    reveal_strlit("name");
    reveal_strlit("value");
    reveal_strlit("since");
    reveal_strlit("summary");
    assert("name"@.len() != "value"@.len());
    lemma_tag_ne("name", "value");
    assert("name"@.len() != "since"@.len());
    lemma_tag_ne("name", "since");
    assert("name"@.len() != "summary"@.len());
    lemma_tag_ne("name", "summary");
    assert("value"@[0] != "since"@[0]);
    lemma_tag_ne("value", "since");
    assert("value"@.len() != "summary"@.len());
    lemma_tag_ne("value", "summary");
    assert("since"@.len() != "summary"@.len());
    lemma_tag_ne("since", "summary");
}

/// The names that are told apart.
proof fn lemma_enum_names()
    ensures
        tag("name") != tag("since"),
        tag("name") != tag("bitfield"),
        tag("since") != tag("bitfield"),
{
    reveal_strlit("name");
    reveal_strlit("since");
    reveal_strlit("bitfield");
    assert("name"@.len() != "since"@.len());
    lemma_tag_ne("name", "since");
    assert("name"@.len() != "bitfield"@.len());
    lemma_tag_ne("name", "bitfield");
    assert("since"@.len() != "bitfield"@.len());
    lemma_tag_ne("since", "bitfield");
}

/// The names that are told apart.
proof fn lemma_arg_names()
    ensures
        tag("name") != tag("type"),
        tag("name") != tag("summary"),
        tag("name") != tag("interface"),
        tag("name") != tag("allow-null"),
        tag("name") != tag("enum"),
        tag("type") != tag("summary"),
        tag("type") != tag("interface"),
        tag("type") != tag("allow-null"),
        tag("type") != tag("enum"),
        tag("summary") != tag("interface"),
        tag("summary") != tag("allow-null"),
        tag("summary") != tag("enum"),
        tag("interface") != tag("allow-null"),
        tag("interface") != tag("enum"),
        tag("allow-null") != tag("enum"),
{
    reveal_strlit("name");
    reveal_strlit("type");
    reveal_strlit("summary");
    reveal_strlit("interface");
    reveal_strlit("allow-null");
    reveal_strlit("enum");
    assert("name"@[0] != "type"@[0]);
    lemma_tag_ne("name", "type");
    assert("name"@.len() != "summary"@.len());
    lemma_tag_ne("name", "summary");
    assert("name"@.len() != "interface"@.len());
    lemma_tag_ne("name", "interface");
    assert("name"@.len() != "allow-null"@.len());
    lemma_tag_ne("name", "allow-null");
    assert("name"@[0] != "enum"@[0]);
    lemma_tag_ne("name", "enum");
    assert("type"@.len() != "summary"@.len());
    lemma_tag_ne("type", "summary");
    assert("type"@.len() != "interface"@.len());
    lemma_tag_ne("type", "interface");
    assert("type"@.len() != "allow-null"@.len());
    lemma_tag_ne("type", "allow-null");
    assert("type"@[0] != "enum"@[0]);
    lemma_tag_ne("type", "enum");
    assert("summary"@.len() != "interface"@.len());
    lemma_tag_ne("summary", "interface");
    assert("summary"@.len() != "allow-null"@.len());
    lemma_tag_ne("summary", "allow-null");
    assert("summary"@.len() != "enum"@.len());
    lemma_tag_ne("summary", "enum");
    assert("interface"@.len() != "allow-null"@.len());
    lemma_tag_ne("interface", "allow-null");
    assert("interface"@.len() != "enum"@.len());
    lemma_tag_ne("interface", "enum");
    assert("allow-null"@.len() != "enum"@.len());
    lemma_tag_ne("allow-null", "enum");
}

/// The names that are told apart.
proof fn lemma_message_names()
    ensures
        tag("name") != tag("type"),
        tag("name") != tag("since"),
        tag("type") != tag("since"),
{
    reveal_strlit("name");
    reveal_strlit("type");
    reveal_strlit("since");
    assert("name"@[0] != "type"@[0]);
    lemma_tag_ne("name", "type");
    assert("name"@.len() != "since"@.len());
    lemma_tag_ne("name", "since");
    assert("type"@.len() != "since"@.len());
    lemma_tag_ne("type", "since");
}

/// The names that are told apart.
proof fn lemma_interface_names()
    ensures
        tag("name") != tag("version"),
{
    reveal_strlit("name");
    reveal_strlit("version");
    assert("name"@.len() != "version"@.len());
    lemma_tag_ne("name", "version");
}

/// The names that are told apart.
proof fn lemma_elements_names()
    ensures
        tag("description") != tag("entry"),
        tag("description") != tag("arg"),
        tag("description") != tag("request"),
        tag("description") != tag("event"),
        tag("description") != tag("enum"),
        tag("request") != tag("event"),
        tag("request") != tag("enum"),
        tag("event") != tag("enum"),
        tag("copyright") != tag("interface"),
        tag("copyright") != tag("description"),
        tag("interface") != tag("description"),
{
    reveal_strlit("description");
    reveal_strlit("entry");
    reveal_strlit("arg");
    reveal_strlit("request");
    reveal_strlit("event");
    reveal_strlit("enum");
    reveal_strlit("copyright");
    reveal_strlit("interface");
    assert("description"@.len() != "entry"@.len());
    lemma_tag_ne("description", "entry");
    assert("description"@.len() != "arg"@.len());
    lemma_tag_ne("description", "arg");
    assert("description"@.len() != "request"@.len());
    lemma_tag_ne("description", "request");
    assert("description"@.len() != "event"@.len());
    lemma_tag_ne("description", "event");
    assert("description"@.len() != "enum"@.len());
    lemma_tag_ne("description", "enum");
    assert("request"@.len() != "event"@.len());
    lemma_tag_ne("request", "event");
    assert("request"@.len() != "enum"@.len());
    lemma_tag_ne("request", "enum");
    assert("event"@.len() != "enum"@.len());
    lemma_tag_ne("event", "enum");
    assert("copyright"@[0] != "interface"@[0]);
    lemma_tag_ne("copyright", "interface");
    assert("copyright"@.len() != "description"@.len());
    lemma_tag_ne("copyright", "description");
    assert("interface"@.len() != "description"@.len());
    lemma_tag_ne("interface", "description");
}

/// The names that are told apart.
proof fn lemma_type_names()
    ensures
        tag("int") != tag("uint"),
        tag("int") != tag("fixed"),
        tag("int") != tag("string"),
        tag("int") != tag("object"),
        tag("int") != tag("new_id"),
        tag("int") != tag("array"),
        tag("int") != tag("fd"),
        tag("int") != tag("destructor"),
        tag("uint") != tag("fixed"),
        tag("uint") != tag("string"),
        tag("uint") != tag("object"),
        tag("uint") != tag("new_id"),
        tag("uint") != tag("array"),
        tag("uint") != tag("fd"),
        tag("uint") != tag("destructor"),
        tag("fixed") != tag("string"),
        tag("fixed") != tag("object"),
        tag("fixed") != tag("new_id"),
        tag("fixed") != tag("array"),
        tag("fixed") != tag("fd"),
        tag("fixed") != tag("destructor"),
        tag("string") != tag("object"),
        tag("string") != tag("new_id"),
        tag("string") != tag("array"),
        tag("string") != tag("fd"),
        tag("string") != tag("destructor"),
        tag("object") != tag("new_id"),
        tag("object") != tag("array"),
        tag("object") != tag("fd"),
        tag("object") != tag("destructor"),
        tag("new_id") != tag("array"),
        tag("new_id") != tag("fd"),
        tag("new_id") != tag("destructor"),
        tag("array") != tag("fd"),
        tag("array") != tag("destructor"),
        tag("fd") != tag("destructor"),
{
    reveal_strlit("int");
    reveal_strlit("uint");
    reveal_strlit("fixed");
    reveal_strlit("string");
    reveal_strlit("object");
    reveal_strlit("new_id");
    reveal_strlit("array");
    reveal_strlit("fd");
    reveal_strlit("destructor");
    assert("int"@.len() != "uint"@.len());
    lemma_tag_ne("int", "uint");
    assert("int"@.len() != "fixed"@.len());
    lemma_tag_ne("int", "fixed");
    assert("int"@.len() != "string"@.len());
    lemma_tag_ne("int", "string");
    assert("int"@.len() != "object"@.len());
    lemma_tag_ne("int", "object");
    assert("int"@.len() != "new_id"@.len());
    lemma_tag_ne("int", "new_id");
    assert("int"@.len() != "array"@.len());
    lemma_tag_ne("int", "array");
    assert("int"@.len() != "fd"@.len());
    lemma_tag_ne("int", "fd");
    assert("int"@.len() != "destructor"@.len());
    lemma_tag_ne("int", "destructor");
    assert("uint"@.len() != "fixed"@.len());
    lemma_tag_ne("uint", "fixed");
    assert("uint"@.len() != "string"@.len());
    lemma_tag_ne("uint", "string");
    assert("uint"@.len() != "object"@.len());
    lemma_tag_ne("uint", "object");
    assert("uint"@.len() != "new_id"@.len());
    lemma_tag_ne("uint", "new_id");
    assert("uint"@.len() != "array"@.len());
    lemma_tag_ne("uint", "array");
    assert("uint"@.len() != "fd"@.len());
    lemma_tag_ne("uint", "fd");
    assert("uint"@.len() != "destructor"@.len());
    lemma_tag_ne("uint", "destructor");
    assert("fixed"@.len() != "string"@.len());
    lemma_tag_ne("fixed", "string");
    assert("fixed"@.len() != "object"@.len());
    lemma_tag_ne("fixed", "object");
    assert("fixed"@.len() != "new_id"@.len());
    lemma_tag_ne("fixed", "new_id");
    assert("fixed"@[0] != "array"@[0]);
    lemma_tag_ne("fixed", "array");
    assert("fixed"@.len() != "fd"@.len());
    lemma_tag_ne("fixed", "fd");
    assert("fixed"@.len() != "destructor"@.len());
    lemma_tag_ne("fixed", "destructor");
    assert("string"@[0] != "object"@[0]);
    lemma_tag_ne("string", "object");
    assert("string"@[0] != "new_id"@[0]);
    lemma_tag_ne("string", "new_id");
    assert("string"@.len() != "array"@.len());
    lemma_tag_ne("string", "array");
    assert("string"@.len() != "fd"@.len());
    lemma_tag_ne("string", "fd");
    assert("string"@.len() != "destructor"@.len());
    lemma_tag_ne("string", "destructor");
    assert("object"@[0] != "new_id"@[0]);
    lemma_tag_ne("object", "new_id");
    assert("object"@.len() != "array"@.len());
    lemma_tag_ne("object", "array");
    assert("object"@.len() != "fd"@.len());
    lemma_tag_ne("object", "fd");
    assert("object"@.len() != "destructor"@.len());
    lemma_tag_ne("object", "destructor");
    assert("new_id"@.len() != "array"@.len());
    lemma_tag_ne("new_id", "array");
    assert("new_id"@.len() != "fd"@.len());
    lemma_tag_ne("new_id", "fd");
    assert("new_id"@.len() != "destructor"@.len());
    lemma_tag_ne("new_id", "destructor");
    assert("array"@.len() != "fd"@.len());
    lemma_tag_ne("array", "fd");
    assert("array"@.len() != "destructor"@.len());
    lemma_tag_ne("array", "destructor");
    assert("fd"@.len() != "destructor"@.len());
    lemma_tag_ne("fd", "destructor");
}

/// Events of the given kinds stand in a document, from a place on.
pub open spec fn stands_at(es: Events, pos: int, kinds: Seq<XmlKindView>) -> bool {
    &&& 0 <= pos
    &&& pos + kinds.len() <= es.len()
    &&& forall|i: int| 0 <= i < kinds.len() ==> es[pos + i].kind == #[trigger] kinds[i]
}

/// What stands in a document stands there part by part.
proof fn lemma_parts(es: Events, pos: int, a: Seq<XmlKindView>, b: Seq<XmlKindView>)
    requires
        stands_at(es, pos, a + b),
    ensures
        stands_at(es, pos, a),
        stands_at(es, pos + a.len(), b),
{
    assert forall|i: int| 0 <= i < a.len() implies es[pos + i].kind == #[trigger] a[i] by {
        assert((a + b)[i] == a[i]);
    }
    assert forall|i: int| 0 <= i < b.len() implies es[pos + a.len() + i].kind == #[trigger] b[i] by {
        assert((a + b)[a.len() + i] == b[i]);
    }
}

/// An attribute.
pub open spec fn attribute(key: &str, value: Seq<char>) -> Option<(Seq<u8>, Seq<u8>)> {
    Some((encode_utf8(key@), encode_utf8(value)))
}

/// Attributes with one more, if there is a value for it.
pub open spec fn with_attribute(attrs: Attributes, key: &str, value: Option<Seq<char>>) -> Attributes {
    match value {
        Some(value) => attrs.push(attribute(key, value)),
        None => attrs,
    }
}

/// An element begins.
pub open spec fn begins(name: &str, attributes: Attributes) -> XmlKindView {
    XmlKindView::Start { name: encode_utf8(name@), attributes }
}

/// An element ends.
pub open spec fn ends(name: &str) -> XmlKindView {
    XmlKindView::End { name: encode_utf8(name@) }
}

/// A summary that has no white space but one space between words is read as it is written.
pub open spec fn plain(summary: Seq<char>) -> bool {
    summary_of(encode_utf8(summary)) == summary
}

/// There is no summary, or it is plain.
pub open spec fn plain_if_any(summary: Option<Seq<char>>) -> bool {
    summary matches Some(s) ==> plain(s)
}

/// There is no description, or its summary is plain.
pub open spec fn plain_description(d: Option<(Seq<char>, Seq<char>)>) -> bool {
    d matches Some((s, _)) ==> plain(s)
}

/// How a description is written.
pub open spec fn write_description(d: Option<(Seq<char>, Seq<char>)>) -> Seq<XmlKindView> {
    match d {
        None => Seq::empty(),
        Some((summary, text)) => seq![begins("description", seq![attribute("summary", summary)])] + (if text.len() > 0 {
            seq![XmlKindView::Text { text: Some(text) }]
        } else {
            Seq::empty()
        }) + seq![ends("description")],
    }
}

/// The name of a type.
pub open spec fn name_of_type(typ: Type) -> Seq<char> {
    match typ {
        Type::Int => "int"@,
        Type::Uint => "uint"@,
        Type::Fixed => "fixed"@,
        Type::String => "string"@,
        Type::Object => "object"@,
        Type::NewId => "new_id"@,
        Type::Array => "array"@,
        Type::Fd => "fd"@,
        Type::Destructor => "destructor"@,
    }
}

/// How an entry of an enum is written.
pub open spec fn entry_attributes(e: EntryView) -> Attributes {
    with_attribute(
        Seq::empty().push(attribute("name", e.name)).push(attribute("value", decimal(e.value as nat))).push(
            attribute("since", decimal(e.since as nat)),
        ),
        "summary",
        e.summary,
    )
}

/// How an entry of an enum is written.
pub open spec fn write_entry(e: EntryView) -> Seq<XmlKindView> {
    seq![begins("entry", entry_attributes(e))] + write_description(e.description) + seq![ends("entry")]
}

/// How entries are written, from the one with number `k` on.
pub open spec fn write_entries(entries: Seq<EntryView>, k: int) -> Seq<XmlKindView>
    decreases entries.len() - k,
{
    if k < 0 || k >= entries.len() {
        Seq::empty()
    } else {
        write_entry(entries[k]) + write_entries(entries, k + 1)
    }
}

/// How an enum is written.
pub open spec fn enum_attributes(e: EnumView) -> Attributes {
    with_attribute(
        Seq::empty().push(attribute("name", e.name)).push(attribute("since", decimal(e.since as nat))),
        "bitfield",
        if e.bitfield {
            Some("true"@)
        } else {
            None
        },
    )
}

/// How an enum is written.
pub open spec fn write_enum(e: EnumView) -> Seq<XmlKindView> {
    seq![begins("enum", enum_attributes(e))] + write_description(e.description) + (write_entries(e.entries, 0) + seq![
        ends("enum"),
    ])
}

/// How enums are written, from the one with number `k` on.
pub open spec fn write_enums(enums: Seq<EnumView>, k: int) -> Seq<XmlKindView>
    decreases enums.len() - k,
{
    if k < 0 || k >= enums.len() {
        Seq::empty()
    } else {
        write_enum(enums[k]) + write_enums(enums, k + 1)
    }
}

/// How an argument is written.
pub open spec fn arg_attributes(a: ArgView) -> Attributes {
    let attrs = Seq::empty().push(attribute("name", a.name)).push(attribute("type", name_of_type(a.typ)));
    let attrs = with_attribute(attrs, "summary", a.summary);
    let attrs = with_attribute(attrs, "interface", a.interface);
    let attrs = with_attribute(
        attrs,
        "allow-null",
        if a.allow_null {
            Some("true"@)
        } else {
            None
        },
    );
    with_attribute(attrs, "enum", a.enum_)
}

/// How an argument is written.
pub open spec fn write_arg(a: ArgView) -> Seq<XmlKindView> {
    seq![begins("arg", arg_attributes(a))] + write_description(a.description) + seq![ends("arg")]
}

/// How arguments are written, from the one with number `k` on.
pub open spec fn write_args(args: Seq<ArgView>, k: int) -> Seq<XmlKindView>
    decreases args.len() - k,
{
    if k < 0 || k >= args.len() {
        Seq::empty()
    } else {
        write_arg(args[k]) + write_args(args, k + 1)
    }
}

/// An argument that is not written, because it comes with another one.
pub open spec fn unwritten_arg(name: Seq<char>, typ: Type, summary: Seq<char>) -> ArgView {
    ArgView {
        name,
        typ,
        interface: None,
        summary: Some(summary),
        description: None,
        allow_null: false,
        enum_: None,
    }
}

/// The arguments that the first `n` written arguments stand for: an object of any interface
/// comes with the name and the version of its interface before it.
pub open spec fn on_the_wire(args: Seq<ArgView>, n: int) -> Seq<ArgView>
    decreases n,
{
    if n <= 0 {
        Seq::empty()
    } else {
        let last = args[n - 1];
        if last.typ == Type::NewId && last.interface is None {
            on_the_wire(args, n - 1).push(
                unwritten_arg("interface"@, Type::String, "interface of the bound object"@),
            ).push(unwritten_arg("version"@, Type::Uint, "interface version of the bound object"@)).push(last)
        } else {
            on_the_wire(args, n - 1).push(last)
        }
    }
}

/// How a request or an event is written.
pub open spec fn message_attributes(m: MessageView) -> Attributes {
    with_attribute(
        Seq::empty().push(attribute("name", m.name)),
        "type",
        match m.typ {
            Some(typ) => Some(name_of_type(typ)),
            None => None,
        },
    ).push(attribute("since", decimal(m.since as nat)))
}

/// How a request or an event is written.
pub open spec fn write_message(m: MessageView, end: &str) -> Seq<XmlKindView> {
    seq![begins(end, message_attributes(m))] + write_description(m.description) + (write_args(m.args, 0) + seq![
        ends(end),
    ])
}

/// How requests or events are written, from the one with number `k` on.
pub open spec fn write_messages(messages: Seq<MessageView>, end: &str, k: int) -> Seq<XmlKindView>
    decreases messages.len() - k,
{
    if k < 0 || k >= messages.len() {
        Seq::empty()
    } else {
        write_message(messages[k], end) + write_messages(messages, end, k + 1)
    }
}

/// How an interface is written.
pub open spec fn interface_attributes(i: InterfaceView) -> Attributes {
    Seq::empty().push(attribute("name", i.name)).push(attribute("version", decimal(i.version as nat)))
}

/// How an interface is written.
pub open spec fn write_interface(i: InterfaceView) -> Seq<XmlKindView> {
    seq![begins("interface", interface_attributes(i))] + write_description(i.description) + (write_messages(
        i.requests,
        "request",
        0,
    ) + (write_messages(i.events, "event", 0) + (write_enums(i.enums, 0) + seq![ends("interface")])))
}

/// How interfaces are written, from the one with number `k` on.
pub open spec fn write_interfaces(interfaces: Seq<InterfaceView>, k: int) -> Seq<XmlKindView>
    decreases interfaces.len() - k,
{
    if k < 0 || k >= interfaces.len() {
        Seq::empty()
    } else {
        write_interface(interfaces[k]) + write_interfaces(interfaces, k + 1)
    }
}

/// How a copyright is written.
pub open spec fn write_copyright(text: Option<Seq<char>>) -> Seq<XmlKindView> {
    match text {
        Some(text) => seq![begins("copyright", Seq::empty()), XmlKindView::Text { text: Some(text) }, ends("copyright")],
        None => Seq::empty(),
    }
}

/// How a protocol is written.
pub open spec fn write_protocol(p: ProtocolView) -> Seq<XmlKindView> {
    seq![begins("protocol", Seq::empty().push(attribute("name", p.name)))] + (write_copyright(p.copyright) + (
    write_description(p.description) + (write_interfaces(p.interfaces, 0) + seq![ends("protocol")])))
}

/// A message as it is read.
pub open spec fn message_on_the_wire(m: MessageView) -> MessageView {
    MessageView { args: on_the_wire(m.args, m.args.len() as int), ..m }
}

/// An interface as it is read.
pub open spec fn interface_on_the_wire(i: InterfaceView) -> InterfaceView {
    InterfaceView {
        requests: i.requests.map_values(|m: MessageView| message_on_the_wire(m)),
        events: i.events.map_values(|m: MessageView| message_on_the_wire(m)),
        ..i
    }
}

/// A protocol as it is read.
pub open spec fn protocol_on_the_wire(p: ProtocolView) -> ProtocolView {
    ProtocolView { interfaces: p.interfaces.map_values(|i: InterfaceView| interface_on_the_wire(i)), ..p }
}

/// All summaries are plain.
pub open spec fn plain_entry(e: EntryView) -> bool {
    plain_if_any(e.summary) && plain_description(e.description)
}

/// All summaries are plain.
pub open spec fn plain_enum(e: EnumView) -> bool {
    plain_description(e.description) && forall|k: int| 0 <= k < e.entries.len() ==> plain_entry(#[trigger] e.entries[k])
}

/// All summaries are plain.
pub open spec fn plain_arg(a: ArgView) -> bool {
    plain_if_any(a.summary) && plain_description(a.description)
}

/// All summaries are plain.
pub open spec fn plain_message(m: MessageView) -> bool {
    plain_description(m.description) && forall|k: int| 0 <= k < m.args.len() ==> plain_arg(#[trigger] m.args[k])
}

/// All summaries are plain.
pub open spec fn plain_interface(i: InterfaceView) -> bool {
    &&& plain_description(i.description)
    &&& forall|k: int| 0 <= k < i.requests.len() ==> plain_message(#[trigger] i.requests[k])
    &&& forall|k: int| 0 <= k < i.events.len() ==> plain_message(#[trigger] i.events[k])
    &&& forall|k: int| 0 <= k < i.enums.len() ==> plain_enum(#[trigger] i.enums[k])
}

/// All summaries are plain.
pub open spec fn plain_protocol(p: ProtocolView) -> bool {
    plain_description(p.description) && forall|k: int|
        0 <= k < p.interfaces.len() ==> plain_interface(#[trigger] p.interfaces[k])
}

/// A text is read as it is written.
proof fn lemma_text(s: Seq<char>)
    ensures
        text_of(encode_utf8(s)) == Ok::<Seq<char>, ErrorView>(s),
{
    encode_utf8_valid_utf8(s);
    encode_utf8_decode_utf8(s);
}

/// The digits of a number stand for it.
proof fn lemma_digits(n: nat)
    ensures
        digits_value(decimal(n), 10) == Some(n),
        decimal(n).len() > 0,
        '0' <= decimal(n)[0] <= '9',
        n >= 10 ==> '1' <= decimal(n)[0] && decimal(n).len() >= 2,
        n >= 1 ==> '1' <= decimal(n)[0],
        n < 10 ==> decimal(n).len() == 1,
    decreases n,
{
    if n < 10 {
        let s = decimal(n);
        assert(s.drop_last() =~= Seq::empty());
        assert(digits_value(s.drop_last(), 10) == Some(0nat));
        assert(digit_value(s.last(), 10) == Some(n));
    } else {
        lemma_digits(n / 10);
        let s = decimal(n);
        assert(s.drop_last() =~= decimal(n / 10));
        assert(s.last() == digit(n % 10));
        assert(digit_value(s.last(), 10) == Some(n % 10));
        assert((n / 10) * 10 + n % 10 == n);
        assert(s[0] == decimal(n / 10)[0]);
    }
}

/// A number that is written in decimal digits is read as it is, if it is small enough.
pub proof fn numbers_are_read_as_written(n: nat, max: nat)
    requires
        n <= max,
    ensures
        number_of(encode_utf8(decimal(n)), 10, max) == Ok::<nat, ErrorView>(n),
{
    let s = decimal(n);
    encode_utf8_valid_utf8(s);
    encode_utf8_decode_utf8(s);
    lemma_digits(n);
    assert(unsigned_part(s) == s);
}

/// The value of an entry is read as it is written, in decimal digits.
pub proof fn entry_values_are_read_as_written(n: nat)
    requires
        n <= u32::MAX,
    ensures
        entry_value(encode_utf8(decimal(n))) == Ok::<nat, ErrorView>(n),
{
    let s = decimal(n);
    let bytes = encode_utf8(s);
    numbers_are_read_as_written(n, u32::MAX as nat);
    lemma_digits(n);
    lemma_ascii_prefix(s, 1);
    assert((s[0] as u32) < 0x80);
    assert(bytes[0] as u32 == s[0] as u32);
    reveal_strlit("0x");
    lemma_ascii_prefix("0x"@, 1);
    assert(("0x"@[0] as u32) < 0x80);
    assert(tag("0x")[0] as u32 == '0' as u32);
    if n < 10 {
        assert(s.skip(1) =~= Seq::empty());
        assert(bytes.skip(1) == encode_utf8(s.skip(1)));
        assert(bytes.len() == 1);
    } else if bytes.len() >= 2 {
        assert(bytes.take(2)[0] == bytes[0]);
    }
}

/// A value behind `0x` is read in hexadecimal digits, and each digit counts sixteen times
/// as much as the one behind it.
pub proof fn hexadecimal_values(bytes: Seq<u8>, s: Seq<char>, c: char)
    ensures
        entry_value(tag("0x") + bytes) == number_of(bytes, 16, u32::MAX as nat),
        '0' <= c <= '9' ==> digit_value(c, 16) == Some((c as u32 - '0' as u32) as nat),
        'a' <= c <= 'f' ==> digit_value(c, 16) == Some((10 + c as u32 - 'a' as u32) as nat),
        'A' <= c <= 'F' ==> digit_value(c, 16) == Some((10 + c as u32 - 'A' as u32) as nat),
        digits_value(s, 16) matches Some(n) ==> (digit_value(c, 16) matches Some(d) ==> digits_value(s.push(c), 16)
            == Some((16 * n + d) as nat)),
{
    reveal_strlit("0x");
    lemma_ascii_prefix("0x"@, 2);
    assert("0x"@.len() == 2);
    assert("0x"@.skip(2) =~= Seq::empty());
    assert(tag("0x").skip(2) == encode_utf8("0x"@.skip(2)));
    assert(tag("0x").skip(2).len() == 0);
    assert(tag("0x").len() == 2);
    let all = tag("0x") + bytes;
    assert(all.take(2) =~= tag("0x"));
    assert(all.skip(2) =~= bytes);
    assert(s.push(c).drop_last() =~= s);
}

/// The name of a type is read as the type.
pub proof fn types_are_read_as_written(typ: Type)
    ensures
        type_of(encode_utf8(name_of_type(typ))) == Ok::<Type, ErrorView>(typ),
{
    lemma_type_names();
}

/// The last attribute of an entry is read last.
proof fn lemma_entry_attrs_push(v: EntryView, attrs: Attributes, key: &str, value: Seq<char>, n: int)
    requires
        0 <= n <= attrs.len(),
    ensures
        entry_attrs(v, attrs.push(attribute(key, value)), n) == entry_attrs(v, attrs, n),
        entry_attrs(v, attrs, attrs.len() as int) matches Ok(w) ==> entry_attrs(
            v,
            attrs.push(attribute(key, value)),
            attrs.len() as int + 1,
        ) == entry_attr(w, tag(key), encode_utf8(value)),
    decreases n,
{
    let all = attrs.push(attribute(key, value));
    if n > 0 {
        lemma_entry_attrs_push(v, attrs, key, value, n - 1);
        assert(all[n - 1] == attrs[n - 1]);
    }
    if n == attrs.len() {
        assert(all[n] == attribute(key, value));
    } else {
        lemma_entry_attrs_same(v, attrs, all, attrs.len() as int);
        assert(all[attrs.len() as int] == attribute(key, value));
    }
}

/// Only the attributes that were read count.
proof fn lemma_entry_attrs_same(v: EntryView, a: Attributes, b: Attributes, n: int)
    requires
        0 <= n <= a.len(),
        n <= b.len(),
        forall|i: int| 0 <= i < n ==> a[i] == b[i],
    ensures
        entry_attrs(v, a, n) == entry_attrs(v, b, n),
    decreases n,
{
    if n > 0 {
        lemma_entry_attrs_same(v, a, b, n - 1);
        assert(a[n - 1] == b[n - 1]);
    }
}

/// The last attribute of an enum is read last.
proof fn lemma_enum__attrs_push(v: EnumView, attrs: Attributes, key: &str, value: Seq<char>, n: int)
    requires
        0 <= n <= attrs.len(),
    ensures
        enum__attrs(v, attrs.push(attribute(key, value)), n) == enum__attrs(v, attrs, n),
        enum__attrs(v, attrs, attrs.len() as int) matches Ok(w) ==> enum__attrs(
            v,
            attrs.push(attribute(key, value)),
            attrs.len() as int + 1,
        ) == enum__attr(w, tag(key), encode_utf8(value)),
    decreases n,
{
    let all = attrs.push(attribute(key, value));
    if n > 0 {
        lemma_enum__attrs_push(v, attrs, key, value, n - 1);
        assert(all[n - 1] == attrs[n - 1]);
    }
    if n == attrs.len() {
        assert(all[n] == attribute(key, value));
    } else {
        lemma_enum__attrs_same(v, attrs, all, attrs.len() as int);
        assert(all[attrs.len() as int] == attribute(key, value));
    }
}

/// Only the attributes that were read count.
proof fn lemma_enum__attrs_same(v: EnumView, a: Attributes, b: Attributes, n: int)
    requires
        0 <= n <= a.len(),
        n <= b.len(),
        forall|i: int| 0 <= i < n ==> a[i] == b[i],
    ensures
        enum__attrs(v, a, n) == enum__attrs(v, b, n),
    decreases n,
{
    if n > 0 {
        lemma_enum__attrs_same(v, a, b, n - 1);
        assert(a[n - 1] == b[n - 1]);
    }
}

/// The last attribute of an argument is read last.
proof fn lemma_arg_attrs_push(v: ArgView, attrs: Attributes, key: &str, value: Seq<char>, n: int)
    requires
        0 <= n <= attrs.len(),
    ensures
        arg_attrs(v, attrs.push(attribute(key, value)), n) == arg_attrs(v, attrs, n),
        arg_attrs(v, attrs, attrs.len() as int) matches Ok(w) ==> arg_attrs(
            v,
            attrs.push(attribute(key, value)),
            attrs.len() as int + 1,
        ) == arg_attr(w, tag(key), encode_utf8(value)),
    decreases n,
{
    let all = attrs.push(attribute(key, value));
    if n > 0 {
        lemma_arg_attrs_push(v, attrs, key, value, n - 1);
        assert(all[n - 1] == attrs[n - 1]);
    }
    if n == attrs.len() {
        assert(all[n] == attribute(key, value));
    } else {
        lemma_arg_attrs_same(v, attrs, all, attrs.len() as int);
        assert(all[attrs.len() as int] == attribute(key, value));
    }
}

/// Only the attributes that were read count.
proof fn lemma_arg_attrs_same(v: ArgView, a: Attributes, b: Attributes, n: int)
    requires
        0 <= n <= a.len(),
        n <= b.len(),
        forall|i: int| 0 <= i < n ==> a[i] == b[i],
    ensures
        arg_attrs(v, a, n) == arg_attrs(v, b, n),
    decreases n,
{
    if n > 0 {
        lemma_arg_attrs_same(v, a, b, n - 1);
        assert(a[n - 1] == b[n - 1]);
    }
}

/// The last attribute of a message is read last.
proof fn lemma_message_attrs_push(v: MessageView, attrs: Attributes, key: &str, value: Seq<char>, n: int)
    requires
        0 <= n <= attrs.len(),
    ensures
        message_attrs(v, attrs.push(attribute(key, value)), n) == message_attrs(v, attrs, n),
        message_attrs(v, attrs, attrs.len() as int) matches Ok(w) ==> message_attrs(
            v,
            attrs.push(attribute(key, value)),
            attrs.len() as int + 1,
        ) == message_attr(w, tag(key), encode_utf8(value)),
    decreases n,
{
    let all = attrs.push(attribute(key, value));
    if n > 0 {
        lemma_message_attrs_push(v, attrs, key, value, n - 1);
        assert(all[n - 1] == attrs[n - 1]);
    }
    if n == attrs.len() {
        assert(all[n] == attribute(key, value));
    } else {
        lemma_message_attrs_same(v, attrs, all, attrs.len() as int);
        assert(all[attrs.len() as int] == attribute(key, value));
    }
}

/// Only the attributes that were read count.
proof fn lemma_message_attrs_same(v: MessageView, a: Attributes, b: Attributes, n: int)
    requires
        0 <= n <= a.len(),
        n <= b.len(),
        forall|i: int| 0 <= i < n ==> a[i] == b[i],
    ensures
        message_attrs(v, a, n) == message_attrs(v, b, n),
    decreases n,
{
    if n > 0 {
        lemma_message_attrs_same(v, a, b, n - 1);
        assert(a[n - 1] == b[n - 1]);
    }
}

/// The last attribute of an interface is read last.
proof fn lemma_interface_attrs_push(v: InterfaceView, attrs: Attributes, key: &str, value: Seq<char>, n: int)
    requires
        0 <= n <= attrs.len(),
    ensures
        interface_attrs(v, attrs.push(attribute(key, value)), n) == interface_attrs(v, attrs, n),
        interface_attrs(v, attrs, attrs.len() as int) matches Ok(w) ==> interface_attrs(
            v,
            attrs.push(attribute(key, value)),
            attrs.len() as int + 1,
        ) == interface_attr(w, tag(key), encode_utf8(value)),
    decreases n,
{
    let all = attrs.push(attribute(key, value));
    if n > 0 {
        lemma_interface_attrs_push(v, attrs, key, value, n - 1);
        assert(all[n - 1] == attrs[n - 1]);
    }
    if n == attrs.len() {
        assert(all[n] == attribute(key, value));
    } else {
        lemma_interface_attrs_same(v, attrs, all, attrs.len() as int);
        assert(all[attrs.len() as int] == attribute(key, value));
    }
}

/// Only the attributes that were read count.
proof fn lemma_interface_attrs_same(v: InterfaceView, a: Attributes, b: Attributes, n: int)
    requires
        0 <= n <= a.len(),
        n <= b.len(),
        forall|i: int| 0 <= i < n ==> a[i] == b[i],
    ensures
        interface_attrs(v, a, n) == interface_attrs(v, b, n),
    decreases n,
{
    if n > 0 {
        lemma_interface_attrs_same(v, a, b, n - 1);
        assert(a[n - 1] == b[n - 1]);
    }
}

/// A description is read as it is written.
pub proof fn descriptions_are_read_as_written(es: Events, pos: int, d: (Seq<char>, Seq<char>))
    requires
        stands_at(es, pos, write_description(Some(d))),
        plain(d.0),
    ensures
        es[pos].kind == begins("description", seq![attribute("summary", d.0)]),
        description(es, pos + 1, seq![attribute("summary", d.0)]) == Some(
            (Ok::<(Seq<char>, Seq<char>), ErrorView>(d), pos + write_description(Some(d)).len()),
        ),
        write_description(Some(d)).len() >= 2,
{
    let kinds = write_description(Some(d));
    let attrs = seq![attribute("summary", d.0)];
    assert(kinds[0] == begins("description", attrs));
    assert(es[pos + 0].kind == kinds[0]);
    assert(es[pos + 1].kind == kinds[1]);
    reveal_with_fuel(description_summary, 2);
    assert(description_summary(attrs, 1) == d.0);
    if d.1.len() > 0 {
        assert(kinds[1] == XmlKindView::Text { text: Some(d.1) });
        assert(kinds[2] == ends("description"));
        assert(es[pos + 2].kind == kinds[2]);
        assert(Seq::<char>::empty() + d.1 =~= d.1);
        assert(description_text(es, pos + 2, d.1) == Some((Ok::<Seq<char>, ErrorView>(d.1), pos + 3)));
        assert(description_text(es, pos + 1, Seq::empty()) == Some((Ok::<Seq<char>, ErrorView>(d.1), pos + 3)));
    } else {
        assert(kinds[1] == ends("description"));
        assert(d.1 =~= Seq::empty());
        assert(description_text(es, pos + 1, Seq::empty()) == Some((Ok::<Seq<char>, ErrorView>(d.1), pos + 2)));
    }
}

/// A description is taken over.
proof fn lemma_entry_body_description(es: Events, pos: int, v: EntryView, d: Option<(Seq<char>, Seq<char>)>)
    requires
        stands_at(es, pos, write_description(d)),
        plain_description(d),
    ensures
        entry_body(es, pos, v) == entry_body(
            es,
            pos + write_description(d).len(),
            match d {
                Some(_) => EntryView { description: d, ..v },
                None => v,
            },
        ),
{
    if let Some(x) = d {
        descriptions_are_read_as_written(es, pos, x);
        lemma_elements_names();
    }
}

/// A description is taken over.
proof fn lemma_enum__body_description(es: Events, pos: int, v: EnumView, d: Option<(Seq<char>, Seq<char>)>)
    requires
        stands_at(es, pos, write_description(d)),
        plain_description(d),
    ensures
        enum__body(es, pos, v) == enum__body(
            es,
            pos + write_description(d).len(),
            match d {
                Some(_) => EnumView { description: d, ..v },
                None => v,
            },
        ),
{
    if let Some(x) = d {
        descriptions_are_read_as_written(es, pos, x);
        lemma_elements_names();
    }
}

/// A description is taken over.
proof fn lemma_arg_body_description(es: Events, pos: int, v: ArgView, d: Option<(Seq<char>, Seq<char>)>)
    requires
        stands_at(es, pos, write_description(d)),
        plain_description(d),
    ensures
        arg_body(es, pos, v) == arg_body(
            es,
            pos + write_description(d).len(),
            match d {
                Some(_) => ArgView { description: d, ..v },
                None => v,
            },
        ),
{
    if let Some(x) = d {
        descriptions_are_read_as_written(es, pos, x);
        lemma_elements_names();
    }
}

/// A description is taken over.
proof fn lemma_message_body_description(es: Events, pos: int, v: MessageView, d: Option<(Seq<char>, Seq<char>)>, end: &str)
    requires
        stands_at(es, pos, write_description(d)),
        plain_description(d),
    ensures
        message_body(es, pos, v, end) == message_body(
            es,
            pos + write_description(d).len(),
            match d {
                Some(_) => MessageView { description: d, ..v },
                None => v,
            }, end,
        ),
{
    if let Some(x) = d {
        descriptions_are_read_as_written(es, pos, x);
        lemma_elements_names();
    }
}

/// A description is taken over.
proof fn lemma_interface_body_description(es: Events, pos: int, v: InterfaceView, d: Option<(Seq<char>, Seq<char>)>)
    requires
        stands_at(es, pos, write_description(d)),
        plain_description(d),
    ensures
        interface_body(es, pos, v) == interface_body(
            es,
            pos + write_description(d).len(),
            match d {
                Some(_) => InterfaceView { description: d, ..v },
                None => v,
            },
        ),
{
    if let Some(x) = d {
        descriptions_are_read_as_written(es, pos, x);
        lemma_elements_names();
    }
}

/// A description is taken over.
proof fn lemma_protocol_body_description(es: Events, pos: int, v: ProtocolView, d: Option<(Seq<char>, Seq<char>)>)
    requires
        stands_at(es, pos, write_description(d)),
        plain_description(d),
    ensures
        protocol_body(es, pos, v) == protocol_body(
            es,
            pos + write_description(d).len(),
            match d {
                Some(_) => ProtocolView { description: d, ..v },
                None => v,
            },
        ),
{
    if let Some(x) = d {
        descriptions_are_read_as_written(es, pos, x);
        lemma_elements_names();
    }
}

/// The attributes of an entry are read as they are written.
proof fn lemma_entry_attributes(e: EntryView)
    requires
        plain_entry(e),
    ensures
        entry_attrs(blank_entry(), entry_attributes(e), entry_attributes(e).len() as int) == Ok::<EntryView, ErrorView>(
            EntryView { description: None, ..e },
        ),
{
    lemma_entry_names();
    let v = blank_entry();
    let a0 = Seq::<Option<(Seq<u8>, Seq<u8>)>>::empty();
    let a1 = a0.push(attribute("name", e.name));
    let a2 = a1.push(attribute("value", decimal(e.value as nat)));
    let a3 = a2.push(attribute("since", decimal(e.since as nat)));
    lemma_text(e.name);
    entry_values_are_read_as_written(e.value as nat);
    numbers_are_read_as_written(e.since as nat, u16::MAX as nat);
    lemma_entry_attrs_push(v, a0, "name", e.name, 0);
    lemma_entry_attrs_push(v, a1, "value", decimal(e.value as nat), 1);
    lemma_entry_attrs_push(v, a2, "since", decimal(e.since as nat), 2);
    if let Some(s) = e.summary {
        lemma_entry_attrs_push(v, a3, "summary", s, 3);
    }
}

/// An entry is read as it is written.
pub proof fn entries_are_read_as_written(es: Events, pos: int, e: EntryView)
    requires
        stands_at(es, pos, write_entry(e)),
        plain_entry(e),
    ensures
        es[pos].kind == begins("entry", entry_attributes(e)),
        entry(es, pos + 1, entry_attributes(e)) == Some((Ok::<EntryView, ErrorView>(e), pos + write_entry(e).len())),
        write_entry(e).len() >= 2,
{
    let d = write_description(e.description);
    let first = seq![begins("entry", entry_attributes(e))];
    lemma_parts(es, pos, first + d, seq![ends("entry")]);
    lemma_parts(es, pos, first, d);
    assert(es[pos + 0].kind == first[0]);
    lemma_entry_attributes(e);
    let v = EntryView { description: None, ..e };
    lemma_entry_body_description(es, pos + 1, v, e.description);
    let last = pos + 1 + d.len();
    assert(es[last + 0].kind == seq![ends("entry")][0]);
    lemma_elements_names();
}

/// The entries of an enum are read as they are written, from the one with number `k` on.
#[verifier::rlimit(40)]
#[verifier::spinoff_prover]
proof fn lemma_entries(es: Events, pos: int, v: EnumView, entries: Seq<EntryView>, k: int)
    requires
        0 <= k <= entries.len(),
        v.entries == entries.take(k),
        stands_at(es, pos, write_entries(entries, k) + seq![ends("enum")]),
        forall|i: int| 0 <= i < entries.len() ==> plain_entry(#[trigger] entries[i]),
    ensures
        enum__body(es, pos, v) == Some(
            (Ok::<EnumView, ErrorView>(EnumView { entries, ..v }), pos + write_entries(entries, k).len() + 1),
        ),
    decreases entries.len() - k,
{
    let all = write_entries(entries, k) + seq![ends("enum")];
    if k == entries.len() {
        assert(all =~= seq![ends("enum")]);
        assert(es[pos + 0].kind == all[0]);
        assert(entries.take(k) =~= entries);
    } else {
        let e = entries[k];
        let rest = write_entries(entries, k + 1) + seq![ends("enum")];
        assert(all =~= write_entry(e) + rest);
        lemma_parts(es, pos, write_entry(e), rest);
        entries_are_read_as_written(es, pos, e);
        lemma_elements_names();
        let p = pos + write_entry(e).len();
        assert(v.entries.push(e) =~= entries.take(k + 1));
        lemma_entries(es, p, EnumView { entries: v.entries.push(e), ..v }, entries, k + 1);
    }
}

/// The attributes of an enum are read as they are written.
proof fn lemma_enum_attributes(e: EnumView)
    ensures
        enum__attrs(blank_enum_(), enum_attributes(e), enum_attributes(e).len() as int) == Ok::<EnumView, ErrorView>(
            EnumView { description: None, entries: Seq::empty(), ..e },
        ),
{
    lemma_enum_names();
    let v = blank_enum_();
    let a0 = Seq::<Option<(Seq<u8>, Seq<u8>)>>::empty();
    let a1 = a0.push(attribute("name", e.name));
    let a2 = a1.push(attribute("since", decimal(e.since as nat)));
    lemma_text(e.name);
    numbers_are_read_as_written(e.since as nat, u16::MAX as nat);
    lemma_enum__attrs_push(v, a0, "name", e.name, 0);
    lemma_enum__attrs_push(v, a1, "since", decimal(e.since as nat), 1);
    if e.bitfield {
        lemma_enum__attrs_push(v, a2, "bitfield", "true"@, 2);
    }
}

/// An enum is read as it is written.
#[verifier::rlimit(40)]
#[verifier::spinoff_prover]
pub proof fn enums_are_read_as_written(es: Events, pos: int, e: EnumView)
    requires
        stands_at(es, pos, write_enum(e)),
        plain_enum(e),
    ensures
        es[pos].kind == begins("enum", enum_attributes(e)),
        enum_(es, pos + 1, enum_attributes(e)) == Some((Ok::<EnumView, ErrorView>(e), pos + write_enum(e).len())),
        write_enum(e).len() >= 2,
{
    let d = write_description(e.description);
    let first = seq![begins("enum", enum_attributes(e))];
    let rest = write_entries(e.entries, 0) + seq![ends("enum")];
    lemma_parts(es, pos, first + d, rest);
    lemma_parts(es, pos, first, d);
    assert(es[pos + 0].kind == first[0]);
    lemma_enum_attributes(e);
    let v = EnumView { description: None, entries: Seq::empty(), ..e };
    lemma_enum__body_description(es, pos + 1, v, e.description);
    assert(Seq::<EntryView>::empty() =~= e.entries.take(0));
    lemma_entries(
        es,
        pos + 1 + d.len(),
        EnumView { description: e.description, entries: Seq::empty(), ..e },
        e.entries,
        0,
    );
}

/// The attributes of an argument are read as they are written.
#[verifier::rlimit(40)]
#[verifier::spinoff_prover]
proof fn lemma_arg_attributes(a: ArgView)
    requires
        plain_arg(a),
    ensures
        arg_attrs(blank_arg(), arg_attributes(a), arg_attributes(a).len() as int) == Ok::<ArgView, ErrorView>(
            ArgView { description: None, ..a },
        ),
{
    lemma_arg_names();
    let v = blank_arg();
    let a0 = Seq::<Option<(Seq<u8>, Seq<u8>)>>::empty();
    let a1 = a0.push(attribute("name", a.name));
    let a2 = a1.push(attribute("type", name_of_type(a.typ)));
    lemma_text(a.name);
    types_are_read_as_written(a.typ);
    lemma_arg_attrs_push(v, a0, "name", a.name, 0);
    lemma_arg_attrs_push(v, a1, "type", name_of_type(a.typ), 1);
    let a3 = with_attribute(a2, "summary", a.summary);
    if let Some(s) = a.summary {
        lemma_arg_attrs_push(v, a2, "summary", s, 2);
    }
    let v3 = ArgView { description: None, interface: None, allow_null: false, enum_: None, ..a };
    assert(arg_attrs(v, a3, a3.len() as int) == Ok::<ArgView, ErrorView>(v3));
    let a4 = with_attribute(a3, "interface", a.interface);
    if let Some(s) = a.interface {
        lemma_text(s);
        lemma_arg_attrs_push(v, a3, "interface", s, a3.len() as int);
    }
    let v4 = ArgView { description: None, allow_null: false, enum_: None, ..a };
    assert(arg_attrs(v, a4, a4.len() as int) == Ok::<ArgView, ErrorView>(v4));
    let allow = if a.allow_null {
        Some("true"@)
    } else {
        None
    };
    let a5 = with_attribute(a4, "allow-null", allow);
    if a.allow_null {
        lemma_arg_attrs_push(v, a4, "allow-null", "true"@, a4.len() as int);
    }
    let v5 = ArgView { description: None, enum_: None, ..a };
    assert(arg_attrs(v, a5, a5.len() as int) == Ok::<ArgView, ErrorView>(v5));
    if let Some(s) = a.enum_ {
        lemma_text(s);
        lemma_arg_attrs_push(v, a5, "enum", s, a5.len() as int);
    }
    assert(arg_attributes(a) == with_attribute(a5, "enum", a.enum_));
}

/// An argument is read as it is written.
pub proof fn args_are_read_as_written(es: Events, pos: int, a: ArgView)
    requires
        stands_at(es, pos, write_arg(a)),
        plain_arg(a),
    ensures
        es[pos].kind == begins("arg", arg_attributes(a)),
        arg(es, pos + 1, arg_attributes(a)) == Some((Ok::<ArgView, ErrorView>(a), pos + write_arg(a).len())),
        write_arg(a).len() >= 2,
{
    let d = write_description(a.description);
    let first = seq![begins("arg", arg_attributes(a))];
    lemma_parts(es, pos, first + d, seq![ends("arg")]);
    lemma_parts(es, pos, first, d);
    assert(es[pos + 0].kind == first[0]);
    lemma_arg_attributes(a);
    let v = ArgView { description: None, ..a };
    lemma_arg_body_description(es, pos + 1, v, a.description);
    let last = pos + 1 + d.len();
    assert(es[last + 0].kind == seq![ends("arg")][0]);
    lemma_elements_names();
}

/// The arguments of a message are read as they are written, from the one with number `k` on.
#[verifier::rlimit(40)]
#[verifier::spinoff_prover]
proof fn lemma_args(es: Events, pos: int, v: MessageView, args: Seq<ArgView>, end: &str, k: int)
    requires
        0 <= k <= args.len(),
        v.args == on_the_wire(args, k),
        stands_at(es, pos, write_args(args, k) + seq![ends(end)]),
        forall|i: int| 0 <= i < args.len() ==> plain_arg(#[trigger] args[i]),
    ensures
        message_body(es, pos, v, end) == Some(
            (
                Ok::<MessageView, ErrorView>(MessageView { args: on_the_wire(args, args.len() as int), ..v }),
                pos + write_args(args, k).len() + 1,
            ),
        ),
    decreases args.len() - k,
{
    let all = write_args(args, k) + seq![ends(end)];
    if k == args.len() {
        assert(all =~= seq![ends(end)]);
        assert(es[pos + 0].kind == all[0]);
    } else {
        let a = args[k];
        let rest = write_args(args, k + 1) + seq![ends(end)];
        assert(all =~= write_arg(a) + rest);
        lemma_parts(es, pos, write_arg(a), rest);
        args_are_read_as_written(es, pos, a);
        lemma_elements_names();
        let p = pos + write_arg(a).len();
        assert(v.args + expanded(a) =~= on_the_wire(args, k + 1));
        lemma_args(es, p, MessageView { args: on_the_wire(args, k + 1), ..v }, args, end, k + 1);
    }
}

/// The attributes of a message are read as they are written.
proof fn lemma_message_attributes(m: MessageView)
    ensures
        message_attrs(blank_message(), message_attributes(m), message_attributes(m).len() as int) == Ok::<
            MessageView,
            ErrorView,
        >(MessageView { description: None, args: Seq::empty(), ..m }),
{
    lemma_message_names();
    let v = blank_message();
    let a0 = Seq::<Option<(Seq<u8>, Seq<u8>)>>::empty();
    let a1 = a0.push(attribute("name", m.name));
    lemma_text(m.name);
    lemma_message_attrs_push(v, a0, "name", m.name, 0);
    let name = match m.typ {
        Some(typ) => Some(name_of_type(typ)),
        None => None,
    };
    let a2 = with_attribute(a1, "type", name);
    if let Some(typ) = m.typ {
        types_are_read_as_written(typ);
        lemma_message_attrs_push(v, a1, "type", name_of_type(typ), 1);
    }
    numbers_are_read_as_written(m.since as nat, u32::MAX as nat);
    lemma_message_attrs_push(v, a2, "since", decimal(m.since as nat), a2.len() as int);
}

/// A request or an event is read as it is written, with its arguments in the order of the
/// wire.
#[verifier::rlimit(40)]
#[verifier::spinoff_prover]
pub proof fn messages_are_read_as_written(es: Events, pos: int, m: MessageView, end: &str)
    requires
        stands_at(es, pos, write_message(m, end)),
        plain_message(m),
    ensures
        es[pos].kind == begins(end, message_attributes(m)),
        message(es, pos + 1, message_attributes(m), end) == Some(
            (Ok::<MessageView, ErrorView>(message_on_the_wire(m)), pos + write_message(m, end).len()),
        ),
        write_message(m, end).len() >= 2,
{
    let d = write_description(m.description);
    let first = seq![begins(end, message_attributes(m))];
    let rest = write_args(m.args, 0) + seq![ends(end)];
    lemma_parts(es, pos, first + d, rest);
    lemma_parts(es, pos, first, d);
    assert(es[pos + 0].kind == first[0]);
    lemma_message_attributes(m);
    let v = MessageView { description: None, args: Seq::empty(), ..m };
    lemma_message_body_description(es, pos + 1, v, m.description, end);
    lemma_args(
        es,
        pos + 1 + d.len(),
        MessageView { description: m.description, args: Seq::empty(), ..m },
        m.args,
        end,
        0,
    );
}

/// Requests come first, and are read as they are written.
#[verifier::rlimit(40)]
#[verifier::spinoff_prover]
proof fn lemma_requests(es: Events, pos: int, v: InterfaceView, list: Seq<MessageView>, more: Seq<XmlKindView>, k: int)
    requires
        0 <= k <= list.len(),
        stands_at(es, pos, write_messages(list, "request", k) + more),
        forall|i: int| 0 <= i < list.len() ==> plain_message(#[trigger] list[i]),
    ensures
        interface_body(es, pos, v) == interface_body(
            es,
            pos + write_messages(list, "request", k).len(),
            InterfaceView {
                requests: v.requests + list.skip(k).map_values(|m: MessageView| message_on_the_wire(m)),
                ..v
            },
        ),
        stands_at(es, pos + write_messages(list, "request", k).len(), more),
    decreases list.len() - k,
{
    let f = |m: MessageView| message_on_the_wire(m);
    let all = write_messages(list, "request", k);
    lemma_parts(es, pos, all, more);
    if k == list.len() {
        assert(list.skip(k).map_values(f) =~= Seq::empty());
        assert(v.requests + list.skip(k).map_values(f) =~= v.requests);
    } else {
        let m = list[k];
        let rest = write_messages(list, "request", k + 1);
        assert(all + more =~= write_message(m, "request") + (rest + more));
        lemma_parts(es, pos, write_message(m, "request"), rest + more);
        messages_are_read_as_written(es, pos, m, "request");
        lemma_elements_names();
        let p = pos + write_message(m, "request").len();
        let w = InterfaceView { requests: v.requests.push(message_on_the_wire(m)), ..v };
        lemma_requests(es, p, w, list, more, k + 1);
        assert(w.requests + list.skip(k + 1).map_values(f) =~= v.requests + list.skip(k).map_values(f));
    }
}

/// Events come next, and are read as they are written.
#[verifier::rlimit(40)]
#[verifier::spinoff_prover]
proof fn lemma_events(es: Events, pos: int, v: InterfaceView, list: Seq<MessageView>, more: Seq<XmlKindView>, k: int)
    requires
        0 <= k <= list.len(),
        stands_at(es, pos, write_messages(list, "event", k) + more),
        forall|i: int| 0 <= i < list.len() ==> plain_message(#[trigger] list[i]),
    ensures
        interface_body(es, pos, v) == interface_body(
            es,
            pos + write_messages(list, "event", k).len(),
            InterfaceView {
                events: v.events + list.skip(k).map_values(|m: MessageView| message_on_the_wire(m)),
                ..v
            },
        ),
        stands_at(es, pos + write_messages(list, "event", k).len(), more),
    decreases list.len() - k,
{
    let f = |m: MessageView| message_on_the_wire(m);
    let all = write_messages(list, "event", k);
    lemma_parts(es, pos, all, more);
    if k == list.len() {
        assert(list.skip(k).map_values(f) =~= Seq::empty());
        assert(v.events + list.skip(k).map_values(f) =~= v.events);
    } else {
        let m = list[k];
        let rest = write_messages(list, "event", k + 1);
        assert(all + more =~= write_message(m, "event") + (rest + more));
        lemma_parts(es, pos, write_message(m, "event"), rest + more);
        messages_are_read_as_written(es, pos, m, "event");
        lemma_elements_names();
        let p = pos + write_message(m, "event").len();
        let w = InterfaceView { events: v.events.push(message_on_the_wire(m)), ..v };
        lemma_events(es, p, w, list, more, k + 1);
        assert(w.events + list.skip(k + 1).map_values(f) =~= v.events + list.skip(k).map_values(f));
    }
}

/// Enums come last, and are read as they are written.
#[verifier::rlimit(40)]
#[verifier::spinoff_prover]
proof fn lemma_enums(es: Events, pos: int, v: InterfaceView, list: Seq<EnumView>, more: Seq<XmlKindView>, k: int)
    requires
        0 <= k <= list.len(),
        stands_at(es, pos, write_enums(list, k) + more),
        forall|i: int| 0 <= i < list.len() ==> plain_enum(#[trigger] list[i]),
    ensures
        interface_body(es, pos, v) == interface_body(
            es,
            pos + write_enums(list, k).len(),
            InterfaceView { enums: v.enums + list.skip(k), ..v },
        ),
        stands_at(es, pos + write_enums(list, k).len(), more),
    decreases list.len() - k,
{
    let all = write_enums(list, k);
    lemma_parts(es, pos, all, more);
    if k == list.len() {
        assert(v.enums + list.skip(k) =~= v.enums);
    } else {
        let e = list[k];
        let rest = write_enums(list, k + 1);
        assert(all + more =~= write_enum(e) + (rest + more));
        lemma_parts(es, pos, write_enum(e), rest + more);
        enums_are_read_as_written(es, pos, e);
        lemma_elements_names();
        let p = pos + write_enum(e).len();
        let w = InterfaceView { enums: v.enums.push(e), ..v };
        lemma_enums(es, p, w, list, more, k + 1);
        assert(w.enums + list.skip(k + 1) =~= v.enums + list.skip(k));
    }
}

/// The attributes of an interface are read as they are written.
proof fn lemma_interface_attributes(i: InterfaceView)
    ensures
        interface_attrs(blank_interface(), interface_attributes(i), interface_attributes(i).len() as int) == Ok::<
            InterfaceView,
            ErrorView,
        >(InterfaceView { name: i.name, version: i.version, ..blank_interface() }),
{
    lemma_interface_names();
    let v = blank_interface();
    let a0 = Seq::<Option<(Seq<u8>, Seq<u8>)>>::empty();
    let a1 = a0.push(attribute("name", i.name));
    lemma_text(i.name);
    numbers_are_read_as_written(i.version as nat, u32::MAX as nat);
    lemma_interface_attrs_push(v, a0, "name", i.name, 0);
    lemma_interface_attrs_push(v, a1, "version", decimal(i.version as nat), 1);
}

/// An interface is read as it is written.
#[verifier::rlimit(40)]
#[verifier::spinoff_prover]
pub proof fn interfaces_are_read_as_written(es: Events, pos: int, i: InterfaceView)
    requires
        stands_at(es, pos, write_interface(i)),
        plain_interface(i),
    ensures
        es[pos].kind == begins("interface", interface_attributes(i)),
        interface(es, pos + 1, interface_attributes(i)) == Some(
            (Ok::<InterfaceView, ErrorView>(interface_on_the_wire(i)), pos + write_interface(i).len()),
        ),
        write_interface(i).len() >= 2,
{
    let f = |m: MessageView| message_on_the_wire(m);
    let d = write_description(i.description);
    let first = seq![begins("interface", interface_attributes(i))];
    let last = seq![ends("interface")];
    let enums = write_enums(i.enums, 0) + last;
    let events = write_messages(i.events, "event", 0) + enums;
    let rest = write_messages(i.requests, "request", 0) + events;
    lemma_parts(es, pos, first + d, rest);
    lemma_parts(es, pos, first, d);
    assert(es[pos + 0].kind == first[0]);
    lemma_interface_attributes(i);
    let v = InterfaceView { name: i.name, version: i.version, ..blank_interface() };
    lemma_interface_body_description(es, pos + 1, v, i.description);
    let v1 = InterfaceView { description: i.description, ..v };
    let p1 = pos + 1 + d.len();
    lemma_requests(es, p1, v1, i.requests, events, 0);
    assert(v1.requests + i.requests.skip(0).map_values(f) =~= i.requests.map_values(f));
    let v2 = InterfaceView { requests: i.requests.map_values(f), ..v1 };
    let p2 = p1 + write_messages(i.requests, "request", 0).len();
    lemma_events(es, p2, v2, i.events, enums, 0);
    assert(v2.events + i.events.skip(0).map_values(f) =~= i.events.map_values(f));
    let v3 = InterfaceView { events: i.events.map_values(f), ..v2 };
    let p3 = p2 + write_messages(i.events, "event", 0).len();
    lemma_enums(es, p3, v3, i.enums, last, 0);
    assert(v3.enums + i.enums.skip(0) =~= i.enums);
    let v4 = InterfaceView { enums: i.enums, ..v3 };
    let p4 = p3 + write_enums(i.enums, 0).len();
    assert(es[p4 + 0].kind == last[0]);
    assert(interface_body(es, p4, v4) == Some((Ok::<InterfaceView, ErrorView>(v4), p4 + 1)));
    assert(v4 == interface_on_the_wire(i));
}

/// The interfaces of a protocol are read as they are written, from the one with number `k`
/// on.
#[verifier::rlimit(40)]
#[verifier::spinoff_prover]
proof fn lemma_interfaces(es: Events, pos: int, v: ProtocolView, list: Seq<InterfaceView>, k: int)
    requires
        0 <= k <= list.len(),
        stands_at(es, pos, write_interfaces(list, k) + seq![ends("protocol")]),
        forall|i: int| 0 <= i < list.len() ==> plain_interface(#[trigger] list[i]),
    ensures
        protocol_body(es, pos, v) == Some(
            (
                Ok::<ProtocolView, ErrorView>(
                    ProtocolView {
                        interfaces: v.interfaces + list.skip(k).map_values(|i: InterfaceView| interface_on_the_wire(i)),
                        ..v
                    },
                ),
                pos + write_interfaces(list, k).len() + 1,
            ),
        ),
    decreases list.len() - k,
{
    let f = |i: InterfaceView| interface_on_the_wire(i);
    let all = write_interfaces(list, k) + seq![ends("protocol")];
    if k == list.len() {
        assert(all =~= seq![ends("protocol")]);
        assert(es[pos + 0].kind == all[0]);
        assert(v.interfaces + list.skip(k).map_values(f) =~= v.interfaces);
    } else {
        let i = list[k];
        let rest = write_interfaces(list, k + 1) + seq![ends("protocol")];
        assert(all =~= write_interface(i) + rest);
        lemma_parts(es, pos, write_interface(i), rest);
        interfaces_are_read_as_written(es, pos, i);
        lemma_elements_names();
        let p = pos + write_interface(i).len();
        let w = ProtocolView { interfaces: v.interfaces.push(interface_on_the_wire(i)), ..v };
        assert(protocol_body(es, pos, v) == protocol_body(es, p, w));
        lemma_interfaces(es, p, w, list, k + 1);
        assert(w.interfaces + list.skip(k + 1).map_values(f) =~= v.interfaces + list.skip(k).map_values(f));
    }
}

/// A protocol file is read as it is written. Its first event, which is the XML declaration,
/// is passed over, and so is all that stands behind the protocol.
#[verifier::rlimit(40)]
#[verifier::spinoff_prover]
pub proof fn protocols_are_read_as_written(es: Events, p: ProtocolView)
    requires
        es.len() > 0,
        !(es[0].kind is Eof),
        stands_at(es, 1, write_protocol(p)),
        plain_protocol(p),
    ensures
        document_protocol(es) == Some(Ok::<ProtocolView, ErrorView>(protocol_on_the_wire(p))),
{
    let f = |i: InterfaceView| interface_on_the_wire(i);
    let attrs = Seq::empty().push(attribute("name", p.name));
    let first = seq![begins("protocol", attrs)];
    let c = write_copyright(p.copyright);
    let d = write_description(p.description);
    let interfaces = write_interfaces(p.interfaces, 0) + seq![ends("protocol")];
    lemma_parts(es, 1, first, c + (d + interfaces));
    lemma_parts(es, 2, c, d + interfaces);
    let start: int = 2;
    let p1 = start + c.len();
    lemma_parts(es, p1, d, interfaces);
    assert(es[start - 1 + 0].kind == first[0]);
    lemma_elements_names();
    lemma_text(p.name);
    reveal_with_fuel(find_attr, 2);
    assert(attrs[0] == attribute("name", p.name));
    assert(find_attr(attrs, "name", 0) == Some(encode_utf8(p.name)));
    let v = ProtocolView { name: p.name, copyright: None, description: None, interfaces: Seq::empty() };
    let v1 = ProtocolView { copyright: p.copyright, ..v };
    if let Some(text) = p.copyright {
        assert(es[start + 0].kind == c[0]);
        assert(es[start + 1].kind == c[1]);
        assert(es[start + 2].kind == c[2]);
        assert(copyright(es, start + 1) == Some((Ok::<Option<Seq<char>>, ErrorView>(Some(text)), start + 3)));
    }
    assert(protocol_body(es, start, v) == protocol_body(es, p1, v1));
    lemma_protocol_body_description(es, p1, v1, p.description);
    let v2 = ProtocolView { description: p.description, ..v1 };
    lemma_interfaces(es, p1 + d.len(), v2, p.interfaces, 0);
    assert(v2.interfaces + p.interfaces.skip(0).map_values(f) =~= p.interfaces.map_values(f));
}

/// What an argument says is what stands in it, each thing in its own place.
pub proof fn args_say_what_they_have(a: Arg)
    ensures
        a@.name == a.name@,
        a@.typ == a.typ,
        a@.interface == view_text(a.interface),
        a@.summary == view_text(a.summary),
        a@.enum_ == view_text(a.enum_),
        a@.allow_null == a.allow_null,
        a@.description == view_description(a.description),
        a.interface matches Some(s) ==> a@.interface == Some(s@),
        a.interface is None ==> a@.interface is None,
        a.summary matches Some(s) ==> a@.summary == Some(s@),
        a.summary is None ==> a@.summary is None,
        a.enum_ matches Some(s) ==> a@.enum_ == Some(s@),
        a.enum_ is None ==> a@.enum_ is None,
        a.description matches Some((summary, text)) ==> a@.description == Some((summary@, text@)),
        a.description is None ==> a@.description is None,
{
}

/// What a message says is what stands in it, with its arguments in order.
pub proof fn messages_say_what_they_have(m: Message, i: int)
    ensures
        m@.name == m.name@,
        m@.typ == m.typ,
        m@.since == m.since,
        m@.description == view_description(m.description),
        m@.args.len() == m.args@.len(),
        0 <= i < m.args@.len() ==> m@.args[i] == m.args@[i]@,
{
}

/// What an enum says is what stands in it, with its entries in order.
pub proof fn enums_say_what_they_have(e: Enum, i: int)
    ensures
        e@.name == e.name@,
        e@.since == e.since,
        e@.bitfield == e.bitfield,
        e@.description == view_description(e.description),
        e@.entries.len() == e.entries@.len(),
        0 <= i < e.entries@.len() ==> {
            let entry = e.entries@[i];
            &&& e@.entries[i].name == entry.name@
            &&& e@.entries[i].value == entry.value
            &&& e@.entries[i].since == entry.since
            &&& e@.entries[i].summary == view_text(entry.summary)
            &&& e@.entries[i].description == view_description(entry.description)
        },
{
}

/// What an interface says is what stands in it: requests, events and enums, each in order.
pub proof fn interfaces_say_what_they_have(f: Interface, i: int)
    ensures
        f@.name == f.name@,
        f@.version == f.version,
        f@.description == view_description(f.description),
        f@.requests.len() == f.requests@.len(),
        f@.events.len() == f.events@.len(),
        f@.enums.len() == f.enums@.len(),
        0 <= i < f.requests@.len() ==> f@.requests[i] == f.requests@[i]@,
        0 <= i < f.events@.len() ==> f@.events[i] == f.events@[i]@,
        0 <= i < f.enums@.len() ==> f@.enums[i] == f.enums@[i]@,
{
}

/// What a protocol says is what stands in it, with its interfaces in order.
pub proof fn protocols_say_what_they_have(p: Protocol, i: int)
    ensures
        p@.name == p.name@,
        p@.copyright == view_text(p.copyright),
        p@.description == view_description(p.description),
        p@.interfaces.len() == p.interfaces@.len(),
        0 <= i < p.interfaces@.len() ==> p@.interfaces[i] == p.interfaces@[i]@,
{
}

/// What an event of a document says is what stands in it.
pub proof fn events_say_what_they_have(event: XmlEvent, i: int)
    ensures
        event@.shown == event.shown@,
        match event.kind {
            XmlKind::Start { name, attributes } => event@.kind matches XmlKindView::Start { name: n, attributes: a } && {
                &&& n == name@
                &&& a.len() == attributes@.len()
                &&& 0 <= i < attributes@.len() ==> match attributes@[i] {
                    Some((key, value)) => a[i] == Some((key@, value@)),
                    None => a[i] is None,
                }
            },
            XmlKind::End { name } => event@.kind == (XmlKindView::End { name: name@ }),
            XmlKind::Text { text: Some(text) } => event@.kind == (XmlKindView::Text { text: Some(text@) }),
            XmlKind::Text { text: None } => event@.kind matches XmlKindView::Text { text } && text is None,
            XmlKind::CData { bytes } => event@.kind == (XmlKindView::CData { bytes: bytes@ }),
            XmlKind::Comment => event@.kind is Comment,
            XmlKind::Eof => event@.kind is Eof,
            XmlKind::Other => event@.kind is Other,
            XmlKind::Error => event@.kind is Error,
        },
{
}

/// Parts of a description that comments keep apart get an empty line between them.
pub proof fn comments_keep_parts_apart(es: Events, pos: int, a: Seq<char>, b: Seq<char>)
    requires
        a.len() > 0,
        stands_at(
            es,
            pos,
            seq![
                XmlKindView::Text { text: Some(a) },
                XmlKindView::Comment,
                XmlKindView::Text { text: Some(b) },
                ends("description"),
            ],
        ),
    ensures
        description_text(es, pos, Seq::empty()) == Some((Ok::<Seq<char>, ErrorView>(a + seq!['\n', '\n'] + b), pos + 4)),
{
    let kinds = seq![
        XmlKindView::Text { text: Some(a) },
        XmlKindView::Comment,
        XmlKindView::Text { text: Some(b) },
        ends("description"),
    ];
    assert(es[pos + 0].kind == kinds[0]);
    assert(es[pos + 1].kind == kinds[1]);
    assert(es[pos + 2].kind == kinds[2]);
    assert(es[pos + 3].kind == kinds[3]);
    reveal_strlit("\n\n");
    assert("\n\n"@ =~= seq!['\n', '\n']);
    assert(Seq::<char>::empty() + a =~= a);
    let all = a + seq!['\n', '\n'] + b;
    assert(description_text(es, pos + 3, all) == Some((Ok::<Seq<char>, ErrorView>(all), pos + 4)));
    assert(description_text(es, pos + 2, a) == description_text(es, pos + 3, all));
    assert(description_text(es, pos + 1, a) == description_text(es, pos + 2, a));
    assert(description_text(es, pos, Seq::empty()) == description_text(es, pos + 1, a));
}

/// What is not written has its default: the first version, the value 0, no text at all, and
/// no type but that of an object.
pub proof fn what_is_not_written(attrs: Attributes)
    ensures
        entry_attrs(blank_entry(), attrs, 0) matches Ok(e) && e.since == 1 && e.value == 0 && e.name.len() == 0
            && e.summary is None && e.description is None,
        enum__attrs(blank_enum_(), attrs, 0) matches Ok(e) && e.since == 1 && !e.bitfield && e.entries.len() == 0
            && e.name.len() == 0 && e.description is None,
        arg_attrs(blank_arg(), attrs, 0) matches Ok(a) && a.typ == Type::Object && a.interface is None && a.enum_ is None
            && a.summary is None && !a.allow_null && a.name.len() == 0 && a.description is None,
        message_attrs(blank_message(), attrs, 0) matches Ok(m) && m.since == 1 && m.typ is None && m.args.len() == 0
            && m.name.len() == 0 && m.description is None,
        interface_attrs(blank_interface(), attrs, 0) matches Ok(i) && i.version == 1 && i.requests.len() == 0
            && i.events.len() == 0 && i.enums.len() == 0 && i.name.len() == 0 && i.description is None,
{
}

/// An element that does not belong where it stands is refused by its name.
pub proof fn other_elements_are_refused(es: Events, pos: int, name: Seq<char>, attributes: Attributes, end: &str)
    requires
        0 <= pos < es.len(),
        es[pos].kind == (XmlKindView::Start { name: encode_utf8(name), attributes }),
        name != "description"@,
    ensures
        name != "arg"@ ==> forall|v: MessageView| #[trigger]
            message_body(es, pos, v, end) == Some(
                (Err::<MessageView, ErrorView>(ErrorView::UnexpectedToken(name)), pos + 1),
            ),
        name != "entry"@ ==> forall|v: EnumView| #[trigger]
            enum__body(es, pos, v) == Some((Err::<EnumView, ErrorView>(ErrorView::UnexpectedToken(name)), pos + 1)),
        forall|v: ArgView| #[trigger]
            arg_body(es, pos, v) == Some((Err::<ArgView, ErrorView>(ErrorView::UnexpectedToken(name)), pos + 1)),
        name != "request"@ && name != "event"@ && name != "enum"@ ==> forall|v: InterfaceView| #[trigger]
            interface_body(es, pos, v) == Some(
                (Err::<InterfaceView, ErrorView>(ErrorView::UnexpectedToken(name)), pos + 1),
            ),
        name != "copyright"@ && name != "interface"@ ==> forall|v: ProtocolView| #[trigger]
            protocol_body(es, pos, v) == Some(
                (Err::<ProtocolView, ErrorView>(ErrorView::UnexpectedToken(name)), pos + 1),
            ),
{
    lemma_text(name);
    encode_utf8_decode_utf8(name);
    encode_utf8_decode_utf8("description"@);
    encode_utf8_decode_utf8("arg"@);
    encode_utf8_decode_utf8("entry"@);
    encode_utf8_decode_utf8("request"@);
    encode_utf8_decode_utf8("event"@);
    encode_utf8_decode_utf8("enum"@);
    encode_utf8_decode_utf8("copyright"@);
    encode_utf8_decode_utf8("interface"@);
}

/// A protocol has to have a name, and has to be the outermost element.
pub proof fn protocols_have_names(es: Events, pos: int, name: Seq<char>, attributes: Attributes)
    requires
        0 <= pos < es.len(),
        es[pos].kind == (XmlKindView::Start { name: encode_utf8(name), attributes }),
    ensures
        name != "protocol"@ ==> protocol(es, pos) is None,
        name == "protocol"@ && (forall|i: int|
            0 <= i < attributes.len() ==> ((#[trigger] attributes[i]) matches Some((key, _)) ==> key != encode_utf8(
                "name"@,
            ))) ==> protocol(es, pos) == Some((Err::<ProtocolView, ErrorView>(ErrorView::NoName), pos + 1)),
{
    encode_utf8_decode_utf8(name);
    encode_utf8_decode_utf8("protocol"@);
    if forall|i: int|
        0 <= i < attributes.len() ==> ((#[trigger] attributes[i]) matches Some((key, _)) ==> key != encode_utf8("name"@)) {
        lemma_no_attribute(attributes, "name", 0);
    }
}

proof fn lemma_no_attribute(attrs: Attributes, name: &str, n: int)
    requires
        0 <= n,
        forall|i: int|
            0 <= i < attrs.len() ==> ((#[trigger] attrs[i]) matches Some((key, _)) ==> key != encode_utf8(name@)),
    ensures
        find_attr(attrs, name, n) is None,
    decreases attrs.len() - n,
{
    if n < attrs.len() {
        lemma_no_attribute(attrs, name, n + 1);
    }
}

} // verus!
