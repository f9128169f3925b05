//! The code that is generated for interfaces and for a whole protocol.
use ahash::AHashMap;
use vstd::prelude::*;
use vstd::string::*;
use crate::codegen::args::texts;
use crate::codegen::docs::{doc_lines, generate_doc_comment};
use crate::codegen::enums::{enum_code, enum_known, generate_enums, EnumView, GeneratedEnum};
use crate::codegen::infos::{
    infos_before, lookup, noted, noted_args, noted_interfaces, noted_messages, scan_enum, target, EnumInfos, Infos,
};
use crate::codegen::maps::{insert_version, new_versions, versions_of};
use crate::codegen::messages::{
    arg_known, fd_count, generate_event_or_request, message_known, messages_code, messages_known, word_count,
    EventOrRequest, GeneratedMessages, MessagesView,
};
use crate::codegen::{Error, ErrorView};
use crate::spec_parser::protocol::{Arg, Enum, Interface, Message, Protocol, Type};
use crate::text::{decimal, to_decimal};

verus! {

/// The modules of an interface.
#[derive(Debug)]
pub struct GeneratedInterface {
    /// The name of the interface, and of its module.
    pub name: String,
    /// The name of the module of this version.
    pub version_module: String,
    pub version: u32,
    pub doc: Vec<String>,
    pub requests: Option<GeneratedMessages>,
    pub events: Option<GeneratedMessages>,
    pub enums: Vec<GeneratedEnum>,
}

/// What a [`GeneratedInterface`] says.
pub struct InterfaceView {
    pub name: Seq<char>,
    pub version_module: Seq<char>,
    pub version: u32,
    pub doc: Seq<Seq<char>>,
    pub requests: Option<MessagesView>,
    pub events: Option<MessagesView>,
    pub enums: Seq<EnumView>,
}

/// What messages say, where there are any.
pub open spec fn view_messages(messages: Option<GeneratedMessages>) -> Option<MessagesView> {
    match messages {
        Some(messages) => Some(messages@),
        None => None,
    }
}

impl View for GeneratedInterface {
    type V = InterfaceView;

    open spec fn view(&self) -> InterfaceView {
        InterfaceView {
            name: self.name@,
            version_module: self.version_module@,
            version: self.version,
            doc: texts(self.doc@),
            requests: view_messages(self.requests),
            events: view_messages(self.events),
            enums: self.enums@.map_values(|e: GeneratedEnum| e@),
        }
    }
}

/// The code for messages, where there are any.
pub open spec fn some_messages_code(
    current: Seq<char>,
    messages: Seq<Message>,
    infos: Infos,
    versions: Map<Seq<char>, u32>,
    event_or_request: EventOrRequest,
) -> Option<MessagesView> {
    if messages.len() == 0 {
        None
    } else {
        Some(messages_code(current, messages, infos, versions, event_or_request))
    }
}

/// The modules of an interface.
pub open spec fn interface_code(iface: Interface, infos: Infos, versions: Map<Seq<char>, u32>) -> InterfaceView {
    InterfaceView {
        name: iface.name@,
        version_module: "v"@ + decimal(iface.version as nat),
        version: iface.version,
        doc: doc_lines(iface.description),
        requests: some_messages_code(iface.name@, iface.requests@, infos, versions, EventOrRequest::Request),
        events: some_messages_code(iface.name@, iface.events@, infos, versions, EventOrRequest::Event),
        enums: iface.enums@.map_values(|e: Enum| enum_code(e, iface.name@, infos)),
    }
}

/// Code can be generated for an interface.
pub open spec fn interface_known(iface: Interface, infos: Infos, versions: Map<Seq<char>, u32>) -> bool {
    &&& messages_known(iface.name@, iface.requests@, infos, versions)
    &&& messages_known(iface.name@, iface.events@, infos, versions)
    &&& forall|i: int|
        #![trigger iface.enums@[i]]
        0 <= i < iface.enums@.len() ==> enum_known(iface.enums@[i], iface.name@, infos)
}

/// The modules of an interface.
pub fn generate_interface(iface: &Interface, iface_version: &AHashMap<String, u32>, enum_info: &EnumInfos) -> (r: GeneratedInterface)
    requires
        interface_known(*iface, enum_info@, versions_of(*iface_version)),
    ensures
        r@ == interface_code(*iface, enum_info@, versions_of(*iface_version)),
{
    let requests = generate_event_or_request(
        iface.name.as_str(),
        &iface.requests,
        iface_version,
        enum_info,
        EventOrRequest::Request,
    );
    let events = generate_event_or_request(
        iface.name.as_str(),
        &iface.events,
        iface_version,
        enum_info,
        EventOrRequest::Event,
    );
    GeneratedInterface {
        name: iface.name.clone(),
        version_module: "v".to_owned().concat(to_decimal(iface.version).as_str()),
        version: iface.version,
        doc: generate_doc_comment(&iface.description),
        requests,
        events,
        enums: generate_enums(&iface.enums, iface.name.as_str(), enum_info),
    }
}

/// The module of a protocol.
#[derive(Debug)]
pub struct GeneratedProtocol {
    pub name: String,
    pub interfaces: Vec<GeneratedInterface>,
}

/// What a [`GeneratedProtocol`] says.
pub struct ProtocolView {
    pub name: Seq<char>,
    pub interfaces: Seq<InterfaceView>,
}

impl View for GeneratedProtocol {
    type V = ProtocolView;

    open spec fn view(&self) -> ProtocolView {
        ProtocolView {
            name: self.name@,
            interfaces: self.interfaces@.map_values(|i: GeneratedInterface| i@),
        }
    }
}

/// The versions of the first `n` interfaces. A later interface takes the place of
/// an earlier one with the same name.
pub open spec fn versions_before(interfaces: Seq<Interface>, n: int) -> Map<Seq<char>, u32>
    decreases n,
{
    if n <= 0 {
        Map::empty()
    } else {
        versions_before(interfaces, n - 1).insert(interfaces[n - 1].name@, interfaces[n - 1].version)
    }
}

/// The infos on all enums, once all arguments were seen.
pub open spec fn all_infos(proto: Protocol) -> Result<Infos, ErrorView> {
    let n = proto.interfaces@.len() as int;
    noted_interfaces(infos_before(proto.interfaces@, n), proto.interfaces@, n)
}

/// The module of a protocol.
pub open spec fn protocol_code(proto: Protocol, infos: Infos) -> ProtocolView {
    let versions = versions_before(proto.interfaces@, proto.interfaces@.len() as int);
    ProtocolView {
        name: proto.name@,
        interfaces: proto.interfaces@.map_values(|iface: Interface| interface_code(iface, infos, versions)),
    }
}

/// A message does not ask for more than there is code for: no argument is a
/// destructor, there are at most 255 file descriptors, and the fixed length can
/// be counted.
pub open spec fn message_sound(message: Message) -> bool {
    let args = message.args@;
    &&& forall|i: int|
        #![trigger args[i]]
        0 <= i < args.len() ==> !(args[i].typ == Type::Destructor && args[i].enum_ is None)
    &&& fd_count(args, args.len() as int) <= u8::MAX
    &&& 4 * word_count(args, args.len() as int) + 8 <= u32::MAX
}

/// The messages of an interface are sound, and its enums are not confused with
/// others of the same name.
pub open spec fn interface_sound(proto: Protocol, iface: Interface) -> bool {
    &&& forall|i: int| #![trigger iface.requests@[i]] 0 <= i < iface.requests@.len() ==> message_sound(iface.requests@[i])
    &&& forall|i: int| #![trigger iface.events@[i]] 0 <= i < iface.events@.len() ==> message_sound(iface.events@[i])
    &&& forall|i: int|
        #![trigger iface.enums@[i]]
        0 <= i < iface.enums@.len() ==> enum_known(
            iface.enums@[i],
            iface.name@,
            infos_before(proto.interfaces@, proto.interfaces@.len() as int),
        )
}

/// `b` knows the same enums as `a`, and no less of them.
pub open spec fn extends(a: Infos, b: Infos) -> bool {
    &&& a.dom() == b.dom()
    &&& forall|iface: Seq<char>| #[trigger]
        a.contains_key(iface) ==> {
            &&& a[iface].dom() == b[iface].dom()
            &&& forall|name: Seq<char>| #[trigger]
                a[iface].contains_key(name) ==> {
                    &&& a[iface][name].is_bitfield == b[iface][name].is_bitfield
                    &&& a[iface][name].is_int is Some ==> a[iface][name].is_int == b[iface][name].is_int
                }
        }
}

/// The enum that an argument refers to is known, and is represented as the
/// argument is.
pub open spec fn arg_decided(m: Infos, current: Seq<char>, arg: Arg) -> bool {
    arg.enum_ is Some ==> (lookup(m, current, (arg.enum_->0)@) matches Ok(info) && info.is_int == Some(
        arg.typ == Type::Int,
    ))
}

/// The enums that the arguments of a message refer to are decided.
pub open spec fn message_decided(m: Infos, current: Seq<char>, message: Message) -> bool {
    forall|i: int|
        #![trigger message.args@[i]]
        0 <= i < message.args@.len() ==> arg_decided(m, current, message.args@[i])
}

proof fn lemma_extends_trans(a: Infos, b: Infos, c: Infos)
    requires
        extends(a, b),
        extends(b, c),
    ensures
        extends(a, c),
{
    assert forall|iface: Seq<char>| #[trigger] a.contains_key(iface) implies {
        &&& a[iface].dom() == c[iface].dom()
        &&& forall|name: Seq<char>| #[trigger]
            a[iface].contains_key(name) ==> {
                &&& a[iface][name].is_bitfield == c[iface][name].is_bitfield
                &&& a[iface][name].is_int is Some ==> a[iface][name].is_int == c[iface][name].is_int
            }
    } by {
        assert(b.contains_key(iface));
        assert forall|name: Seq<char>| #[trigger] a[iface].contains_key(name) implies {
            &&& a[iface][name].is_bitfield == c[iface][name].is_bitfield
            &&& a[iface][name].is_int is Some ==> a[iface][name].is_int == c[iface][name].is_int
        } by {
            assert(b[iface].contains_key(name));
        }
    }
}

/// What was decided stays decided.
proof fn lemma_stays_decided(a: Infos, b: Infos, current: Seq<char>, arg: Arg)
    requires
        extends(a, b),
        arg_decided(a, current, arg),
    ensures
        arg_decided(b, current, arg),
{
    if let Some(enum_) = arg.enum_ {
        let (iface, name) = target(current, enum_@);
        assert(a.contains_key(iface));
        assert(a[iface].contains_key(name));
        assert(b[iface].contains_key(name));
    }
}

proof fn lemma_noted(m: Infos, current: Seq<char>, arg: Arg)
    requires
        noted(m, current, arg) is Ok,
    ensures
        extends(m, noted(m, current, arg)->Ok_0),
        arg_decided(noted(m, current, arg)->Ok_0, current, arg),
{
    if let Some(enum_) = arg.enum_ {
        let (iface, name) = target(current, enum_@);
        let m2 = noted(m, current, arg)->Ok_0;
        assert(m2.dom() =~= m.dom());
        assert forall|i: Seq<char>| #[trigger] m.contains_key(i) implies m[i].dom() == m2[i].dom() by {
            assert(m2[i].dom() =~= m[i].dom());
        }
    }
}

proof fn lemma_noted_args(m: Infos, current: Seq<char>, args: Seq<Arg>, n: int)
    requires
        0 <= n <= args.len(),
        noted_args(m, current, args, n) is Ok,
    ensures
        extends(m, noted_args(m, current, args, n)->Ok_0),
        forall|i: int| 0 <= i < n ==> arg_decided(noted_args(m, current, args, n)->Ok_0, current, #[trigger] args[i]),
    decreases n,
{
    if n > 0 {
        lemma_noted_args(m, current, args, n - 1);
        let m1 = noted_args(m, current, args, n - 1)->Ok_0;
        lemma_noted(m1, current, args[n - 1]);
        let m2 = noted(m1, current, args[n - 1])->Ok_0;
        lemma_extends_trans(m, m1, m2);
        assert forall|i: int| 0 <= i < n implies arg_decided(m2, current, #[trigger] args[i]) by {
            if i < n - 1 {
                lemma_stays_decided(m1, m2, current, args[i]);
            }
        }
    }
}

proof fn lemma_message_stays(a: Infos, b: Infos, current: Seq<char>, message: Message)
    requires
        extends(a, b),
        message_decided(a, current, message),
    ensures
        message_decided(b, current, message),
{
    assert forall|i: int| #![trigger message.args@[i]] 0 <= i < message.args@.len() implies arg_decided(
        b,
        current,
        message.args@[i],
    ) by {
        lemma_stays_decided(a, b, current, message.args@[i]);
    }
}

proof fn lemma_noted_messages(m: Infos, current: Seq<char>, messages: Seq<Message>, n: int)
    requires
        0 <= n <= messages.len(),
        noted_messages(m, current, messages, n) is Ok,
    ensures
        extends(m, noted_messages(m, current, messages, n)->Ok_0),
        forall|i: int|
            0 <= i < n ==> message_decided(
                noted_messages(m, current, messages, n)->Ok_0,
                current,
                #[trigger] messages[i],
            ),
    decreases n,
{
    if n > 0 {
        lemma_noted_messages(m, current, messages, n - 1);
        let m1 = noted_messages(m, current, messages, n - 1)->Ok_0;
        let args = messages[n - 1].args@;
        lemma_noted_args(m1, current, args, args.len() as int);
        let m2 = noted_args(m1, current, args, args.len() as int)->Ok_0;
        lemma_extends_trans(m, m1, m2);
        assert forall|i: int| 0 <= i < n implies message_decided(m2, current, #[trigger] messages[i]) by {
            if i < n - 1 {
                lemma_message_stays(m1, m2, current, messages[i]);
            }
        }
    }
}

/// The enums that the messages of an interface refer to are decided.
pub open spec fn interface_decided(m: Infos, iface: Interface) -> bool {
    &&& forall|i: int|
        #![trigger iface.requests@[i]]
        0 <= i < iface.requests@.len() ==> message_decided(m, iface.name@, iface.requests@[i])
    &&& forall|i: int|
        #![trigger iface.events@[i]]
        0 <= i < iface.events@.len() ==> message_decided(m, iface.name@, iface.events@[i])
}

proof fn lemma_noted_interfaces(m: Infos, interfaces: Seq<Interface>, n: int)
    requires
        0 <= n <= interfaces.len(),
        noted_interfaces(m, interfaces, n) is Ok,
    ensures
        extends(m, noted_interfaces(m, interfaces, n)->Ok_0),
        forall|i: int|
            0 <= i < n ==> interface_decided(noted_interfaces(m, interfaces, n)->Ok_0, #[trigger] interfaces[i]),
    decreases n,
{
    if n > 0 {
        lemma_noted_interfaces(m, interfaces, n - 1);
        let m1 = noted_interfaces(m, interfaces, n - 1)->Ok_0;
        let iface = interfaces[n - 1];
        lemma_noted_messages(m1, iface.name@, iface.requests@, iface.requests@.len() as int);
        let m2 = noted_messages(m1, iface.name@, iface.requests@, iface.requests@.len() as int)->Ok_0;
        lemma_noted_messages(m2, iface.name@, iface.events@, iface.events@.len() as int);
        let m3 = noted_messages(m2, iface.name@, iface.events@, iface.events@.len() as int)->Ok_0;
        lemma_extends_trans(m, m1, m2);
        lemma_extends_trans(m, m2, m3);
        lemma_extends_trans(m1, m2, m3);
        assert forall|i: int| 0 <= i < n implies interface_decided(m3, #[trigger] interfaces[i]) by {
            let f = interfaces[i];
            if i < n - 1 {
                assert(interface_decided(m1, f));
                assert forall|j: int| #![trigger f.requests@[j]] 0 <= j < f.requests@.len() implies message_decided(
                    m3,
                    f.name@,
                    f.requests@[j],
                ) by {
                    lemma_message_stays(m1, m3, f.name@, f.requests@[j]);
                }
                assert forall|j: int| #![trigger f.events@[j]] 0 <= j < f.events@.len() implies message_decided(
                    m3,
                    f.name@,
                    f.events@[j],
                ) by {
                    lemma_message_stays(m1, m3, f.name@, f.events@[j]);
                }
            } else {
                assert forall|j: int| #![trigger f.requests@[j]] 0 <= j < f.requests@.len() implies message_decided(
                    m3,
                    f.name@,
                    f.requests@[j],
                ) by {
                    lemma_message_stays(m2, m3, f.name@, f.requests@[j]);
                }
            }
        }
    }
}

/// Where all enums of a protocol can be decided, every argument is represented
/// as the enum that it refers to is: no enum is read as `int` in one place and as
/// `uint` in another.
pub proof fn enums_are_decided(proto: Protocol, i: int)
    requires
        all_infos(proto) is Ok,
        0 <= i < proto.interfaces@.len(),
    ensures
        interface_decided(all_infos(proto)->Ok_0, proto.interfaces@[i]),
{
    let n = proto.interfaces@.len() as int;
    lemma_noted_interfaces(infos_before(proto.interfaces@, n), proto.interfaces@, n);
}

/// The interfaces with enums are those with versions.
proof fn lemma_same_names(interfaces: Seq<Interface>, n: int)
    requires
        0 <= n <= interfaces.len(),
    ensures
        infos_before(interfaces, n).dom() == versions_before(interfaces, n).dom(),
        forall|i: int| 0 <= i < n ==> infos_before(interfaces, n).contains_key((#[trigger] interfaces[i]).name@),
    decreases n,
{
    if n > 0 {
        lemma_same_names(interfaces, n - 1);
    }
    assert(infos_before(interfaces, n).dom() =~= versions_before(interfaces, n).dom());
}

/// Code can be generated for a sound message whose enums are decided.
proof fn lemma_message_known(m: Infos, versions: Map<Seq<char>, u32>, current: Seq<char>, message: Message)
    requires
        message_sound(message),
        message_decided(m, current, message),
        m.dom() == versions.dom(),
    ensures
        message_known(current, message, m, versions),
{
    let args = message.args@;
    assert forall|i: int| #![trigger args[i]] 0 <= i < args.len() implies arg_known(current, args[i], m, versions) by {
        let arg = args[i];
        assert(arg_decided(m, current, arg));
        if let Some(enum_) = arg.enum_ {
            let (iface, name) = target(current, enum_@);
            assert(m.contains_key(iface));
            assert(versions.contains_key(iface));
        }
    }
}

/// There can be code for a protocol, unless its enums cannot be made out.
pub open spec fn protocol_sound(proto: Protocol) -> bool {
    all_infos(proto) is Ok ==> forall|i: int|
        #![trigger proto.interfaces@[i]]
        0 <= i < proto.interfaces@.len() ==> interface_sound(proto, proto.interfaces@[i])
}

/// The module of a protocol. Fails if an argument refers to an enum that is not
/// there, or if arguments do not agree on the type of an enum.
pub fn generate_protocol(proto: &Protocol) -> (r: Result<GeneratedProtocol, Error>)
    requires
        protocol_sound(*proto),
    ensures
        match r {
            Ok(code) => all_infos(*proto) is Ok && code@ == protocol_code(*proto, all_infos(*proto)->Ok_0),
            Err(e) => all_infos(*proto) == Err::<Infos, ErrorView>(e@),
        },
{
    let ghost n = proto.interfaces@.len() as int;
    let mut iface_version = new_versions();
    let mut i: usize = 0;
    while i < proto.interfaces.len()
        invariant
            0 <= i <= proto.interfaces@.len(),
            versions_of(iface_version) == versions_before(proto.interfaces@, i as int),
        decreases proto.interfaces@.len() - i,
    {
        insert_version(&mut iface_version, proto.interfaces[i].name.clone(), proto.interfaces[i].version);
        i = i + 1;
    }
    let ghost versions = versions_of(iface_version);
    let mut enum_info = EnumInfos::of(proto);
    let ghost m0 = enum_info@;
    proof {
        lemma_same_names(proto.interfaces@, n);
    }
    match scan_enum(proto, &mut enum_info) {
        Ok(_) => {},
        Err(e) => {
            return Err(e);
        },
    }
    let ghost m = enum_info@;
    proof {
        lemma_noted_interfaces(m0, proto.interfaces@, n);
        assert(m.dom() == versions.dom());
    }
    let mut interfaces: Vec<GeneratedInterface> = Vec::new();
    let mut j: usize = 0;
    while j < proto.interfaces.len()
        invariant
            0 <= j <= proto.interfaces@.len(),
            m == enum_info@,
            versions == versions_of(iface_version),
            m.dom() == versions.dom(),
            m0 == infos_before(proto.interfaces@, proto.interfaces@.len() as int),
            extends(m0, m),
            forall|i: int|
                0 <= i < proto.interfaces@.len() ==> interface_decided(m, #[trigger] proto.interfaces@[i]),
            forall|i: int|
                #![trigger proto.interfaces@[i]]
                0 <= i < proto.interfaces@.len() ==> interface_sound(*proto, proto.interfaces@[i]),
            interfaces@.len() == j,
            forall|i: int|
                #![trigger interfaces@[i]]
                0 <= i < j ==> interfaces@[i]@ == interface_code(proto.interfaces@[i], m, versions),
        decreases proto.interfaces@.len() - j,
    {
        let iface = &proto.interfaces[j];
        proof {
            assert(interface_decided(m, *iface));
            assert(interface_sound(*proto, *iface));
            assert forall|i: int| #![trigger iface.requests@[i]] 0 <= i < iface.requests@.len() implies message_known(
                iface.name@,
                iface.requests@[i],
                m,
                versions,
            ) by {
                lemma_message_known(m, versions, iface.name@, iface.requests@[i]);
            }
            assert forall|i: int| #![trigger iface.events@[i]] 0 <= i < iface.events@.len() implies message_known(
                iface.name@,
                iface.events@[i],
                m,
                versions,
            ) by {
                lemma_message_known(m, versions, iface.name@, iface.events@[i]);
            }
            assert forall|i: int| #![trigger iface.enums@[i]] 0 <= i < iface.enums@.len() implies enum_known(
                iface.enums@[i],
                iface.name@,
                m,
            ) by {
                let (f, name) = target(iface.name@, iface.enums@[i].name@);
                assert(enum_known(iface.enums@[i], iface.name@, m0));
                assert(m0.contains_key(f));
                assert(m0[f].contains_key(name));
                assert(m[f].contains_key(name));
            }
        }
        interfaces.push(generate_interface(iface, &iface_version, &enum_info));
        j = j + 1;
    }
    let r = GeneratedProtocol { name: proto.name.clone(), interfaces };
    proof {
        assert(r@.interfaces =~= protocol_code(*proto, m).interfaces);
    }
    Ok(r)
}

} // verus!
