//! Which protocols there can be code for.
use vstd::prelude::*;
use crate::codegen::enums::enum_known;
use crate::codegen::infos::{infos_before, scan_enum, EnumInfos};
use crate::codegen::messages::{fd_count, word_count};
use crate::codegen::protocol::{all_infos, interface_sound, message_sound, protocol_sound};
use crate::spec_parser::protocol::{Interface, Message, Protocol, Type};

verus! {

/// Each interface is known by its name.
proof fn lemma_known(interfaces: Seq<Interface>, n: int, i: int)
    requires
        0 <= i < n <= interfaces.len(),
    ensures
        infos_before(interfaces, n).contains_key(interfaces[i].name@),
    decreases n,
{
    if i < n - 1 {
        lemma_known(interfaces, n - 1, i);
    }
}

/// Tells whether there can be code for a message.
fn message_is_sound(message: &Message) -> (r: bool)
    ensures
        r == message_sound(*message),
{
    let mut fds: usize = 0;
    let mut words: usize = 0;
    let mut i: usize = 0;
    while i < message.args.len()
        invariant
            0 <= i <= message.args@.len(),
            fds == fd_count(message.args@, i as int),
            words == word_count(message.args@, i as int),
            fds <= i,
            words <= i,
            forall|j: int|
                #![trigger message.args@[j]]
                0 <= j < i ==> !(message.args@[j].typ == Type::Destructor && message.args@[j].enum_ is None),
        decreases message.args@.len() - i,
    {
        let arg = &message.args[i];
        if arg.typ == Type::Destructor && arg.enum_.is_none() {
            return false;
        }
        match arg.typ {
            Type::Fd => {
                fds = fds + 1;
            },
            Type::Destructor => {},
            _ => {
                words = words + 1;
            },
        }
        i = i + 1;
    }
    fds <= 255 && words <= 0x3fff_fffd
}

/// Tells whether there can be code for all of the messages.
fn messages_are_sound(messages: &Vec<Message>) -> (r: bool)
    ensures
        r == forall|i: int| #![trigger messages@[i]] 0 <= i < messages@.len() ==> message_sound(messages@[i]),
{
    let mut i: usize = 0;
    while i < messages.len()
        invariant
            0 <= i <= messages@.len(),
            forall|j: int| #![trigger messages@[j]] 0 <= j < i ==> message_sound(messages@[j]),
        decreases messages@.len() - i,
    {
        if !message_is_sound(&messages[i]) {
            return false;
        }
        i = i + 1;
    }
    true
}

/// Tells whether the enums of an interface are not confused with others.
fn enums_are_known(iface: &Interface, infos: &EnumInfos) -> (r: bool)
    requires
        infos@.contains_key(iface.name@),
    ensures
        r == forall|i: int|
            #![trigger iface.enums@[i]]
            0 <= i < iface.enums@.len() ==> enum_known(iface.enums@[i], iface.name@, infos@),
{
    let mut i: usize = 0;
    while i < iface.enums.len()
        invariant
            0 <= i <= iface.enums@.len(),
            infos@.contains_key(iface.name@),
            forall|j: int|
                #![trigger iface.enums@[j]]
                0 <= j < i ==> enum_known(iface.enums@[j], iface.name@, infos@),
        decreases iface.enums@.len() - i,
    {
        let known = match infos.get(iface.name.as_str(), iface.enums[i].name.as_str()) {
            Ok(info) => info.is_bitfield == iface.enums[i].bitfield,
            Err(_) => false,
        };
        if !known {
            return false;
        }
        i = i + 1;
    }
    true
}

/// Tells whether there can be code for a protocol: no argument is a destructor, no
/// message has more than 255 file descriptors or a length that cannot be counted,
/// and no enum is confused with another one. A protocol whose enums cannot be made
/// out passes: an error is what comes of generating code for it.
pub fn is_sound(proto: &Protocol) -> (r: bool)
    ensures
        r == protocol_sound(*proto),
{
    let infos = EnumInfos::of(proto);
    let mut noted = EnumInfos::of(proto);
    proof {
        assert forall|i: int|
            #![trigger proto.interfaces@[i]]
            0 <= i < proto.interfaces@.len() implies infos@.contains_key(proto.interfaces@[i].name@) by {
            lemma_known(proto.interfaces@, proto.interfaces@.len() as int, i);
        }
    }
    if scan_enum(proto, &mut noted).is_err() {
        return true;
    }
    let mut i: usize = 0;
    while i < proto.interfaces.len()
        invariant
            0 <= i <= proto.interfaces@.len(),
            infos@ == infos_before(proto.interfaces@, proto.interfaces@.len() as int),
            all_infos(*proto) is Ok,
            forall|j: int|
                #![trigger proto.interfaces@[j]]
                0 <= j < i ==> interface_sound(*proto, proto.interfaces@[j]),
        decreases proto.interfaces@.len() - i,
    {
        let iface = &proto.interfaces[i];
        proof {
            lemma_known(proto.interfaces@, proto.interfaces@.len() as int, i as int);
        }
        if !messages_are_sound(&iface.requests) || !messages_are_sound(&iface.events) || !enums_are_known(iface, &infos) {
            return false;
        }
        i = i + 1;
    }
    true
}

} // verus!
