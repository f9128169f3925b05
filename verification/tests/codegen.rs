use runa::codegen::args::ArgType;
use runa::codegen::docs::{generate_doc_comment, wrap_links};
use runa::codegen::enums::MemberValue;
use runa::codegen::html_docs::generate_html_doc_comment;
use runa::codegen::messages::{DeserializeStep, LengthTerm, SerializeStep};
use runa::codegen::protocol::generate_protocol;
use runa::codegen::sound::is_sound;
use runa::codegen::Error;
use runa::spec_parser::parse::parse;
use runa::spec_parser::protocol::Protocol;
use runa::text::{parse_number, split_once, squeeze, to_decimal, to_signed_decimal, trim_end_matches, trim_start_matches};

fn protocol(interfaces: &str) -> Protocol {
    let document = format!(r#"<?xml version="1.0"?><protocol name="wayland">{}</protocol>"#, interfaces);
    parse(document.as_bytes()).unwrap().unwrap()
}

const DISPLAY: &str = r#"
<interface name="wl_display" version="1">
  <request name="sync"><arg name="callback" type="new_id" interface="wl_callback"/></request>
  <request name="move"><arg name="title" type="string"/><arg name="fd" type="fd"/></request>
  <event name="error">
    <arg name="code" type="uint" enum="error"/>
    <arg name="how" type="int" enum="wl_other.mode"/>
    <arg name="data" type="array"/>
    <arg name="x" type="fixed"/>
  </event>
  <enum name="error"><entry name="invalid_object" value="0"/><entry name="12" value="1"/></enum>
</interface>
<interface name="wl_other" version="3">
  <enum name="mode"><entry name="none" value="4294967295" summary="a [b]"/></enum>
  <enum name="flag_set" bitfield="true"><entry name="some_flag" value="0x2"/></enum>
</interface>"#;

#[test]
fn generate_generate() {
    let code = generate_protocol(&protocol(DISPLAY)).unwrap();
    assert_eq!(code.name, "wayland");
    let display = &code.interfaces[0];
    assert_eq!(display.version_module, "v1");
    let requests = display.requests.as_ref().unwrap();
    assert!(requests.is_borrowed);
    let sync = &requests.messages[0];
    assert_eq!((sync.name.as_str(), sync.opcode, sync.fixed_len, sync.nfds), ("Sync", 0, 12, 0));
    assert!(matches!(&sync.fields[0].ty, ArgType::Plain(path) if path.segments.last().unwrap() == "NewId"));
    let move_ = &requests.messages[1];
    assert_eq!((move_.name.as_str(), move_.opcode, move_.fixed_len, move_.nfds), ("Move", 1, 12, 1));
    assert!(matches!(move_.fields[0].length, LengthTerm::String));
    assert!(matches!(move_.fields[1].serialize, SerializeStep::Fd));
    assert_eq!(requests.dispatch.methods[1].name, "move_");
    assert_eq!(requests.dispatch.methods[1].future, "MoveFut");
    assert!(!requests.dispatch.hidden);
    let events = display.events.as_ref().unwrap();
    assert!(events.dispatch.hidden);
    let error = &events.messages[0];
    assert_eq!(error.fixed_len, 24);
    assert!(matches!(error.fields[0].serialize, SerializeStep::Enum { is_int: false }));
    assert!(matches!(error.fields[1].serialize, SerializeStep::Enum { is_int: true }));
    assert!(!matches!(error.fields[2].deserialize, DeserializeStep::Number { .. }));
    assert_eq!(display.enums[0].name, "Error");
    assert_eq!(display.enums[0].members[0].name, "InvalidObject");
    assert_eq!(display.enums[0].members[1].name, "_12");
    let other = &code.interfaces[1];
    assert!(other.requests.is_none());
    assert_eq!(other.version_module, "v3");
    assert!(matches!(other.enums[0].members[0].value, MemberValue::Int(-1)));
    assert_eq!(other.enums[0].members[0].summary, "a \\[b\\]");
    assert!(other.enums[1].is_bitfield);
    assert_eq!(other.enums[1].members[0].name, "SOME_FLAG");
}

#[test]
fn each_way_not_to_generate_code() {
    let failed = |interfaces: &str| generate_protocol(&protocol(interfaces)).unwrap_err();
    let with_arg = |arg: &str| {
        format!(
            r#"<interface name="a" version="1"><request name="r">{}</request><enum name="e"/><enum name="b" bitfield="true"/></interface>"#,
            arg
        )
    };
    let e = failed(&with_arg(r#"<arg name="x" type="uint" enum="nowhere.e"/>"#));
    assert!(matches!(e, Error::UnknownInterface(name) if name == "nowhere"));
    let e = failed(&with_arg(r#"<arg name="x" type="uint" enum="f"/>"#));
    assert!(matches!(e, Error::UnknownEnum(name) if name == "f"));
    let e = failed(&with_arg(
        r#"<arg name="x" type="uint" enum="e"/><arg name="y" type="int" enum="e"/>"#,
    ));
    assert!(matches!(e, Error::BadEnumType(_)));
}

#[test]
fn links_are_put_in_brackets() {
    assert_eq!(wrap_links("see https://example.org/a for more"), "see <https://example.org/a> for more");
    assert_eq!(wrap_links("nothing here"), "nothing here");
    assert_eq!(wrap_links("ü http://a.org"), "ü <http://a.org>");
}

#[test]
fn doc_comments_define_references() {
    let description = Some((
        "summary".to_string(),
        "\n   one [1] two\n  [1] https://example.org\n [2]: done".to_string(),
    ));
    assert_eq!(
        generate_doc_comment(&description),
        vec!["summary", "", "", "one [1] two", "[1]: https://example.org", "[2]: done"]
    );
    assert_eq!(
        generate_doc_comment(&Some(("s".to_string(), "[0] https://a.b".to_string()))),
        vec!["s", "", "[0]: https://a.b"]
    );
    assert_eq!(
        generate_doc_comment(&Some(("s".to_string(), "\u{2003}[7]\u{a0}x\u{3000}".to_string()))),
        vec!["s", "", "[7]: x"]
    );
    assert!(generate_doc_comment(&None).is_empty());
}

#[test]
fn texts_are_taken_apart() {
    assert_eq!(to_decimal(0), "0");
    assert_eq!(to_decimal(4294967295), "4294967295");
    assert_eq!(to_signed_decimal(i32::MIN), "-2147483648");
    assert_eq!(to_signed_decimal(12), "12");
    assert_eq!(split_once("a.b.c", '.'), Some(("a".to_string(), "b.c".to_string())));
    assert_eq!(split_once("abc", '.'), None);
    assert_eq!(parse_number("12", 10, 100), Some(12));
    assert_eq!(parse_number("101", 10, 100), None);
    assert_eq!(parse_number("ff", 16, 1000), Some(255));
    assert_eq!(parse_number("", 10, 100), None);
    assert_eq!(squeeze("  a \n b  "), "a b");
    assert_eq!(trim_end_matches("xabab", "ab"), "x");
    assert_eq!(trim_start_matches("__a_", '_'), "a_");
}

#[test]
fn some_protocols_have_no_code() {
    assert!(is_sound(&protocol(DISPLAY)));
    let destructor = r#"<interface name="a" version="1"><request name="r"><arg name="x" type="destructor"/></request></interface>"#;
    assert!(!is_sound(&protocol(destructor)));
    let confused = r#"<interface name="a" version="1"><enum name="e" bitfield="true"/><enum name="e"/></interface>"#;
    assert!(!is_sound(&protocol(confused)));
    // An error in the enums comes first.
    let unknown = r#"<interface name="a" version="1"><request name="r"><arg name="x" type="destructor"/><arg name="y" type="uint" enum="f"/></request></interface>"#;
    assert!(is_sound(&protocol(unknown)));
    assert!(matches!(generate_protocol(&protocol(unknown)), Err(Error::UnknownEnum(_))));
}

#[test]
fn references_become_links() {
    let text = "see  [1] and [2]\n[1] https://a.org\n plain\n[2]: b";
    let lines = generate_html_doc_comment(&Some(("a [b]".to_string(), text.to_string()))).unwrap();
    assert_eq!(
        lines,
        vec![
            "a \\[b\\]",
            "",
            "see<a href=https://a.org><sup>1</sup></a> and \\[2\\]",
            "plain",
        ]
    );
    let spaced = Some(("s".to_string(), "x[] y\u{2003} \t[10] [10]\n[10]u".to_string()));
    assert_eq!(
        generate_html_doc_comment(&spaced).unwrap(),
        vec!["s", "", "x\\[\\] y<a href=u><sup>10</sup></a> \\[10\\]"]
    );
    let undefined = Some(("s".to_string(), "see [3]".to_string()));
    assert!(generate_html_doc_comment(&undefined).is_none());
    assert!(generate_html_doc_comment(&None).unwrap().is_empty());
}
