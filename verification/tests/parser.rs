use runa::spec_parser::parse::{parse, parse_events, parse_type, Error};
use runa::spec_parser::protocol::{Arg, Entry, Enum, Interface, Message, Protocol, Type};
use runa::spec_parser::xml::{read_events, XmlEvent, XmlKind};

const DOCUMENT: &str = r#"
<protocol name="wayland">
  <copyright>
    Copyright © 2008-2011 Someone
  </copyright>

  <interface name="wl_display" version="1">
    <description summary="core global object">
      The core global object.  This is a special singleton object.
    </description>
    <request name="sync">
      <description summary="asynchronous roundtrip">
	The sync request asks the server.
      </description>
      <arg name="callback" type="new_id" interface="wl_callback"
	   summary="callback object for the sync request"/>
    </request>
    <request name="release" type="destructor" since="3"/>
    <event name="error">
      <arg name="object_id" type="object" summary="object where the error occurred"/>
      <arg name="code" type="uint" enum="error"/>
      <arg name="message" type="string" allow-null="true"/>
      <arg name="scale" type="int"/>
      <arg name="x" type="fixed"/>
      <arg name="keys" type="array"/>
      <arg name="fd" type="fd"/>
    </event>
    <enum name="error" bitfield="true" since="2">
      <description summary="global error values"/>
      <entry name="invalid_object" value="0" summary="server couldn't find object"/>
      <entry name="invalid_method" value="0x10" since="4"/>
    </enum>
  </interface>
</protocol>
"#;

fn protocol(document: &str) -> Result<Protocol, Error> {
    let document = format!(r#"<?xml version="1.0" encoding="UTF-8"?>{}"#, document);
    parse(document.as_bytes()).expect("the document ends")
}

#[test]
fn parsing_parse() {
    let protocol = protocol(DOCUMENT).unwrap();
    println!("{:?}", protocol);
    assert_eq!(protocol.name, "wayland");
    assert!(protocol.copyright.unwrap().contains("2008-2011"));
    assert!(protocol.description.is_none());
    assert_eq!(protocol.interfaces.len(), 1);
    let display = &protocol.interfaces[0];
    assert_eq!(display.name, "wl_display");
    assert_eq!(display.version, 1);
    let (summary, text) = display.description.as_ref().unwrap();
    assert_eq!(summary, "core global object");
    assert!(text.contains("The core global object."));
    assert_eq!(display.requests.len(), 2);
    let sync = &display.requests[0];
    assert_eq!(sync.name, "sync");
    assert_eq!(sync.since, 1);
    assert!(sync.typ.is_none());
    assert_eq!(sync.args[0].name, "callback");
    assert_eq!(sync.args[0].typ, Type::NewId);
    assert_eq!(sync.args[0].interface.as_deref(), Some("wl_callback"));
    assert_eq!(sync.args[0].summary.as_deref(), Some("callback object for the sync request"));
    assert_eq!(display.requests[1].typ, Some(Type::Destructor));
    assert_eq!(display.requests[1].since, 3);
    let types: Vec<Type> = display.events[0].args.iter().map(|a| a.typ).collect();
    assert_eq!(
        types,
        vec![Type::Object, Type::Uint, Type::String, Type::Int, Type::Fixed, Type::Array, Type::Fd]
    );
    assert_eq!(display.events[0].args[1].enum_.as_deref(), Some("error"));
    assert!(display.events[0].args[2].allow_null);
    let error = &display.enums[0];
    assert!(error.bitfield);
    assert_eq!(error.since, 2);
    assert_eq!(error.entries[1].value, 16);
    assert_eq!(error.entries[1].since, 4);
    assert_eq!(error.entries[0].summary.as_deref(), Some("server couldn't find object"));
}

#[test]
fn ill_formed_documents_are_told_apart() {
    assert!(matches!(
        protocol("<protocol><interface/></protocol>"),
        Err(Error::NoName)
    ));
    assert!(matches!(
        protocol(r#"<protocol name="p"><interface name="i" version="x"></interface></protocol>"#),
        Err(Error::ParseInt)
    ));
    assert!(matches!(
        protocol(
            r#"<protocol name="p"><interface name="i" version="1"><request name="r"><arg name="a" type="float"/></request></interface></protocol>"#
        ),
        Err(Error::UnexpectedType(t)) if t == "float"
    ));
    assert!(matches!(
        protocol(r#"<protocol name="p"><whatever></whatever></protocol>"#),
        Err(Error::UnexpectedToken(_))
    ));
}

#[test]
fn a_document_that_is_cut_off_has_no_protocol() {
    let whole = DOCUMENT.as_bytes();
    let cut = &whole[..DOCUMENT.find("<event").unwrap()];
    assert!(parse(cut).map_or(true, |r| r.is_err()));
}

#[test]
fn types_have_names() {
    assert_eq!(parse_type(&b"new_id".to_vec()).unwrap(), Type::NewId);
    assert!(matches!(parse_type(&b"bool".to_vec()), Err(Error::UnexpectedType(t)) if t == "bool"));
    assert!(matches!(parse_type(&vec![0xff]), Err(_)));
}

#[test]
fn only_some_types_are_nullable() {
    assert!(Type::String.nullable());
    assert!(Type::Object.nullable());
    assert!(!Type::Int.nullable());
    let mut message = Message::new();
    assert!(message.all_null());
    let mut arg = Arg::new();
    arg.typ = Type::NewId;
    arg.interface = Some("wl_callback".to_string());
    message.args.push(arg);
    assert!(!message.all_null());
}

#[test]
fn new_items_are_empty() {
    assert_eq!(Protocol::new("p".to_string()).name, "p");
    assert_eq!(Interface::new().version, 1);
    assert!(Enum::new().entries.is_empty());
    assert_eq!(Entry::new().value, 0);
    assert!(Message::new().args.is_empty());
    assert!(Arg::new().enum_.is_none());
}

#[test]
fn events_come_in_order() {
    let events = read_events(b"<a k='v' k='w'>x &amp; y</a><b/>");
    let kinds: Vec<&XmlKind> = events.iter().map(|e| &e.kind).collect();
    match kinds.as_slice() {
        [XmlKind::Start { name: a, attributes }, XmlKind::Text { text }, XmlKind::End { name: end }, XmlKind::Start { name: b, .. }, XmlKind::End { .. }, XmlKind::Eof] =>
        {
            assert_eq!(a, b"a");
            assert_eq!(end, b"a");
            assert_eq!(b, b"b");
            assert_eq!(text.as_deref(), Some("x & y"));
            assert_eq!(attributes.len(), 2);
            assert_eq!(attributes[0], Some((b"k".to_vec(), b"v".to_vec())));
            assert!(attributes[1].is_none());
        },
        other => panic!("{:?}", other),
    }
    assert!(events[1].shown.contains("Text"));
    assert_eq!(events.iter().map(|e| e.left).collect::<Vec<_>>(), vec![17, 7, 4, 0, 0, 0]);
    // What follows an error is the end.
    let events = read_events(b"<a></b><c>");
    assert_eq!(events.len(), 3);
    assert!(matches!(events[1].kind, XmlKind::Error) && matches!(events[2].kind, XmlKind::Eof));
    assert_eq!(read_events(b"<a/>").len(), 3);
    assert_eq!(read_events(b"").len(), 1);
}

#[test]
fn the_first_event_is_passed_over() {
    let event = |kind| XmlEvent { kind, shown: String::new(), left: 0 };
    let start = || XmlKind::Start {
        name: b"protocol".to_vec(),
        attributes: vec![Some((b"name".to_vec(), b"p".to_vec()))],
    };
    let end = || XmlKind::End { name: b"protocol".to_vec() };
    let parsed = parse_events(&vec![event(XmlKind::Other), event(start()), event(end()), event(XmlKind::Eof)]);
    assert_eq!(parsed.unwrap().unwrap().name, "p");
}

#[test]
fn a_document_type_has_a_name() {
    assert_eq!(read_events(b"<!DOCTYPE>").len(), 0);
    assert_eq!(read_events(b"\xef\xbb\xbf \n<!doctype \r\n\t><a/>").len(), 0);
    assert_eq!(read_events(b"<?xml version='1.0'?><!DOCTYPE >").len(), 1);
    // Behind a text the `<` was read already.
    let events = read_events(b"<a>text<!DocType></a>");
    assert_eq!(events.len(), 2);
    assert_eq!(events[1].left, 13);
    // The end of an empty element comes first.
    let events = read_events(b"<a/><!DOCTYPE>");
    assert!(matches!(events[1].kind, XmlKind::End { .. }) && events.len() == 2);
    // Not a declaration.
    let events = read_events(b"<!-- <!DOCTYPE> --><a>!DOCTYPE></a><![CDATA[<!DOCTYPE>]]>");
    assert!(matches!(events[0].kind, XmlKind::Comment));
    assert!(matches!(events[4].kind, XmlKind::CData { .. }));
    assert_eq!(events.len(), 6);
    // With a name, not finished, or never read.
    assert!(matches!(read_events(b"<!DOCTYPE a>")[0].kind, XmlKind::Other));
    assert!(matches!(read_events(b"<!DOCTYPE")[0].kind, XmlKind::Error));
    assert_eq!(read_events(b"</a><!DOCTYPE>").len(), 2);

    assert!(parse(b"<?xml version='1.0'?><!DOCTYPE><protocol name='p'></protocol>").is_none());
    assert!(parse(b"<?xml version='1.0'?><protocol name='p'><!DOCTYPE></protocol>").is_none());
    assert_eq!(parse(b"<?xml version='1.0'?><protocol name='p'/><!DOCTYPE>").unwrap().unwrap().name, "p");
}
