//! Which enums a protocol has, and how their values are represented.
use ahash::AHashMap;
use vstd::prelude::*;
use crate::codegen::maps::{
    enums_of, get_enum, get_infos, get_infos_mut, infos_of, insert_enum, insert_infos, new_enums, new_infos, EnumInfo,
};
use crate::codegen::{Error, ErrorView};
use crate::spec_parser::protocol::{Arg, Enum, Interface, Message, Protocol, Type};
use crate::text::{is_first, split_once};

verus! {

/// The enums of all interfaces, by the name of the interface and their own.
pub type Infos = Map<Seq<char>, Map<Seq<char>, EnumInfo>>;

/// The interface and the name of an enum that an argument of the interface
/// `current` refers to: an enum of another interface is named after it, with a
/// dot in between.
pub open spec fn target(current: Seq<char>, enum_: Seq<char>) -> (Seq<char>, Seq<char>) {
    if enum_.contains('.') {
        let i = choose|i: int| is_first(enum_, '.', i);
        (enum_.take(i), enum_.skip(i + 1))
    } else {
        (current, enum_)
    }
}

/// The dot that [`target`] cuts at is where the text can be cut only once.
pub(crate) proof fn lemma_target(current: Seq<char>, enum_: Seq<char>, a: Seq<char>, b: Seq<char>)
    requires
        !a.contains('.'),
        enum_ == a.push('.') + b,
    ensures
        enum_.contains('.'),
        target(current, enum_) == (a, b),
{
    assert(enum_[a.len() as int] == '.');
    assert(is_first(enum_, '.', a.len() as int)) by {
        assert forall|j: int| 0 <= j < a.len() implies enum_[j] != '.' by {
            assert(enum_[j] == a[j]);
            assert(a.contains(a[j]));
        }
    }
    let i = choose|i: int| is_first(enum_, '.', i);
    assert(i == a.len());
    assert(enum_.take(i) =~= a);
    assert(enum_.skip(i + 1) =~= b);
}

/// What is known of the enum that an argument of the interface `current` refers
/// to.
pub open spec fn lookup(m: Infos, current: Seq<char>, enum_: Seq<char>) -> Result<EnumInfo, ErrorView> {
    let (iface, name) = target(current, enum_);
    if !m.contains_key(iface) {
        Err(ErrorView::UnknownInterface(iface))
    } else if !m[iface].contains_key(name) {
        Err(ErrorView::UnknownEnum(name))
    } else {
        Ok(m[iface][name])
    }
}

/// The infos after an argument of the interface `current` was seen.
pub open spec fn noted(m: Infos, current: Seq<char>, arg: Arg) -> Result<Infos, ErrorView> {
    match arg.enum_ {
        None => Ok(m),
        Some(enum_) => {
            let (iface, name) = target(current, enum_@);
            let is_int = arg.typ == Type::Int;
            match lookup(m, current, enum_@) {
                Err(e) => Err(e),
                Ok(info) => match info.is_int {
                    Some(known) => if known == is_int {
                        Ok(m)
                    } else {
                        Err(ErrorView::BadEnumType(enum_@))
                    },
                    None => Ok(
                        m.insert(iface, m[iface].insert(name, EnumInfo { is_int: Some(is_int), ..info })),
                    ),
                },
            }
        },
    }
}

/// The infos after the first `n` arguments of a message were seen.
pub open spec fn noted_args(m: Infos, current: Seq<char>, args: Seq<Arg>, n: int) -> Result<Infos, ErrorView>
    decreases n,
{
    if n <= 0 {
        Ok(m)
    } else {
        match noted_args(m, current, args, n - 1) {
            Err(e) => Err(e),
            Ok(m1) => noted(m1, current, args[n - 1]),
        }
    }
}

/// The infos after the first `n` messages were seen.
pub open spec fn noted_messages(m: Infos, current: Seq<char>, messages: Seq<Message>, n: int) -> Result<Infos, ErrorView>
    decreases n,
{
    if n <= 0 {
        Ok(m)
    } else {
        match noted_messages(m, current, messages, n - 1) {
            Err(e) => Err(e),
            Ok(m1) => noted_args(m1, current, messages[n - 1].args@, messages[n - 1].args@.len() as int),
        }
    }
}

/// The infos after an interface was seen: its requests, then its events.
pub open spec fn noted_interface(m: Infos, iface: Interface) -> Result<Infos, ErrorView> {
    match noted_messages(m, iface.name@, iface.requests@, iface.requests@.len() as int) {
        Err(e) => Err(e),
        Ok(m1) => noted_messages(m1, iface.name@, iface.events@, iface.events@.len() as int),
    }
}

/// The infos after the first `n` interfaces were seen.
pub open spec fn noted_interfaces(m: Infos, interfaces: Seq<Interface>, n: int) -> Result<Infos, ErrorView>
    decreases n,
{
    if n <= 0 {
        Ok(m)
    } else {
        match noted_interfaces(m, interfaces, n - 1) {
            Err(e) => Err(e),
            Ok(m1) => noted_interface(m1, interfaces[n - 1]),
        }
    }
}

/// The enums of an interface, before any argument was seen. A later enum takes
/// the place of an earlier one with the same name.
pub open spec fn enums_before(enums: Seq<Enum>, n: int) -> Map<Seq<char>, EnumInfo>
    decreases n,
{
    if n <= 0 {
        Map::empty()
    } else {
        enums_before(enums, n - 1).insert(
            enums[n - 1].name@,
            EnumInfo { is_bitfield: enums[n - 1].bitfield, is_int: None },
        )
    }
}

/// The enums of the first `n` interfaces, before any argument was seen. A later
/// interface takes the place of an earlier one with the same name.
pub open spec fn infos_before(interfaces: Seq<Interface>, n: int) -> Infos
    decreases n,
{
    if n <= 0 {
        Map::empty()
    } else {
        let iface = interfaces[n - 1];
        infos_before(interfaces, n - 1).insert(iface.name@, enums_before(iface.enums@, iface.enums@.len() as int))
    }
}

/// Mapping from enum names to what is known of them, for each interface.
pub struct EnumInfos(pub AHashMap<String, AHashMap<String, EnumInfo>>);

impl View for EnumInfos {
    type V = Infos;

    open spec fn view(&self) -> Infos {
        infos_of(self.0)
    }
}

impl EnumInfos {
    /// The enums of a protocol, before any argument was seen.
    pub fn of(proto: &Protocol) -> (r: EnumInfos)
        ensures
            r@ == infos_before(proto.interfaces@, proto.interfaces@.len() as int),
    {
        let mut infos = new_infos();
        let mut i: usize = 0;
        while i < proto.interfaces.len()
            invariant
                0 <= i <= proto.interfaces@.len(),
                infos_of(infos) == infos_before(proto.interfaces@, i as int),
            decreases proto.interfaces@.len() - i,
        {
            let iface = &proto.interfaces[i];
            let mut enums = new_enums();
            let mut j: usize = 0;
            while j < iface.enums.len()
                invariant
                    0 <= j <= iface.enums@.len(),
                    enums_of(enums) == enums_before(iface.enums@, j as int),
                decreases iface.enums@.len() - j,
            {
                let e = &iface.enums[j];
                insert_enum(&mut enums, e.name.clone(), EnumInfo { is_bitfield: e.bitfield, is_int: None });
                j = j + 1;
            }
            insert_infos(&mut infos, iface.name.clone(), enums);
            i = i + 1;
        }
        EnumInfos(infos)
    }

    /// What is known of the enum that an argument of an interface refers to.
    pub fn get(&self, current_iface_name: &str, enum_: &str) -> (r: Result<EnumInfo, Error>)
        requires
            !enum_@.contains('.') ==> self@.contains_key(current_iface_name@),
        ensures
            match r {
                Ok(info) => lookup(self@, current_iface_name@, enum_@) == Ok::<EnumInfo, ErrorView>(info),
                Err(e) => lookup(self@, current_iface_name@, enum_@) == Err::<EnumInfo, ErrorView>(e@),
            },
    {
        match split_once(enum_, '.') {
            Some((iface, name)) => {
                proof {
                    lemma_target(current_iface_name@, enum_@, iface@, name@);
                }
                match get_infos(&self.0, iface.as_str()) {
                    None => Err(Error::UnknownInterface(iface)),
                    Some(enums) => match get_enum(enums, name.as_str()) {
                        None => Err(Error::UnknownEnum(name)),
                        Some(info) => Ok(info),
                    },
                }
            },
            None => match get_enum(get_infos(&self.0, current_iface_name).unwrap(), enum_) {
                None => Err(Error::UnknownEnum(enum_.to_owned())),
                Some(info) => Ok(info),
            },
        }
    }

    /// Changes what is known of the enum that an argument of an interface refers
    /// to. It has to be known.
    pub fn set(&mut self, current_iface_name: &str, enum_: &str, info: EnumInfo)
        requires
            lookup(old(self)@, current_iface_name@, enum_@) is Ok,
        ensures
            ({
                let (iface, name) = target(current_iface_name@, enum_@);
                final(self)@ == old(self)@.insert(iface, old(self)@[iface].insert(name, info))
            }),
    {
        match split_once(enum_, '.') {
            Some((iface, name)) => {
                proof {
                    lemma_target(current_iface_name@, enum_@, iface@, name@);
                }
                let enums = get_infos_mut(&mut self.0, iface.as_str()).unwrap();
                insert_enum(enums, name, info);
            },
            None => {
                let enums = get_infos_mut(&mut self.0, current_iface_name).unwrap();
                insert_enum(enums, enum_.to_owned(), info);
            },
        }
    }
}

/// Takes note of an argument: the enum it refers to is of type `int` if the
/// argument is.
fn scan_arg(iface_name: &str, arg: &Arg, enum_info: &mut EnumInfos) -> (r: Result<(), Error>)
    requires
        old(enum_info)@.contains_key(iface_name@),
    ensures
        match r {
            Ok(_) => noted(old(enum_info)@, iface_name@, *arg) == Ok::<Infos, ErrorView>(final(enum_info)@),
            Err(e) => noted(old(enum_info)@, iface_name@, *arg) == Err::<Infos, ErrorView>(e@),
        },
        forall|k: Seq<char>| old(enum_info)@.contains_key(k) ==> final(enum_info)@.contains_key(k),
{
    if let Some(enum_) = &arg.enum_ {
        let info = match enum_info.get(iface_name, enum_.as_str()) {
            Ok(info) => info,
            Err(e) => {
                return Err(e);
            },
        };
        let is_int = arg.typ == Type::Int;
        if let Some(known) = info.is_int {
            if known != is_int {
                return Err(Error::BadEnumType(enum_.clone()));
            }
        } else {
            enum_info.set(
                iface_name,
                enum_.as_str(),
                EnumInfo { is_bitfield: info.is_bitfield, is_int: Some(is_int) },
            );
        }
    }
    Ok(())
}

/// Takes note of the arguments of all messages.
fn scan_messages(iface_name: &str, messages: &Vec<Message>, enum_info: &mut EnumInfos) -> (r: Result<(), Error>)
    requires
        old(enum_info)@.contains_key(iface_name@),
    ensures
        match r {
            Ok(_) => noted_messages(old(enum_info)@, iface_name@, messages@, messages@.len() as int) == Ok::<
                Infos,
                ErrorView,
            >(final(enum_info)@),
            Err(e) => noted_messages(old(enum_info)@, iface_name@, messages@, messages@.len() as int) == Err::<
                Infos,
                ErrorView,
            >(e@),
        },
        forall|k: Seq<char>| old(enum_info)@.contains_key(k) ==> final(enum_info)@.contains_key(k),
{
    let ghost m0 = enum_info@;
    let mut i: usize = 0;
    while i < messages.len()
        invariant
            0 <= i <= messages@.len(),
            m0 == old(enum_info)@,
            m0.contains_key(iface_name@),
            noted_messages(m0, iface_name@, messages@, i as int) == Ok::<Infos, ErrorView>(enum_info@),
            forall|k: Seq<char>| m0.contains_key(k) ==> enum_info@.contains_key(k),
        decreases messages@.len() - i,
    {
        let message = &messages[i];
        let ghost m1 = enum_info@;
        let mut j: usize = 0;
        while j < message.args.len()
            invariant
                0 <= i < messages@.len(),
                *message == messages@[i as int],
                0 <= j <= message.args@.len(),
                m0.contains_key(iface_name@),
                m0 == old(enum_info)@,
                noted_messages(m0, iface_name@, messages@, i as int) == Ok::<Infos, ErrorView>(m1),
                noted_args(m1, iface_name@, message.args@, j as int) == Ok::<Infos, ErrorView>(enum_info@),
                forall|k: Seq<char>| m0.contains_key(k) ==> enum_info@.contains_key(k),
            decreases message.args@.len() - j,
        {
            let ghost m2 = enum_info@;
            match scan_arg(iface_name, &message.args[j], enum_info) {
                Ok(_) => {},
                Err(e) => {
                    proof {
                        assert(noted_args(m1, iface_name@, message.args@, j + 1) == Err::<Infos, ErrorView>(e@));
                        lemma_args_fail(m1, iface_name@, message.args@, j + 1, message.args@.len() as int);
                        assert(noted_messages(m0, iface_name@, messages@, i + 1) == Err::<Infos, ErrorView>(e@));
                        lemma_messages_fail(m0, iface_name@, messages@, i + 1, messages@.len() as int);
                    }
                    return Err(e);
                },
            }
            j = j + 1;
        }
        i = i + 1;
    }
    Ok(())
}

/// An error that comes up while arguments are seen stays.
proof fn lemma_args_fail(m: Infos, current: Seq<char>, args: Seq<Arg>, a: int, b: int)
    requires
        0 <= a <= b,
        noted_args(m, current, args, a) is Err,
    ensures
        noted_args(m, current, args, b) == noted_args(m, current, args, a),
    decreases b - a,
{
    if a < b {
        lemma_args_fail(m, current, args, a, b - 1);
    }
}

/// An error that comes up while messages are seen stays.
proof fn lemma_messages_fail(m: Infos, current: Seq<char>, messages: Seq<Message>, a: int, b: int)
    requires
        0 <= a <= b,
        noted_messages(m, current, messages, a) is Err,
    ensures
        noted_messages(m, current, messages, b) == noted_messages(m, current, messages, a),
    decreases b - a,
{
    if a < b {
        lemma_messages_fail(m, current, messages, a, b - 1);
    }
}

/// An error that comes up while interfaces are seen stays.
proof fn lemma_interfaces_fail(m: Infos, interfaces: Seq<Interface>, a: int, b: int)
    requires
        0 <= a <= b,
        noted_interfaces(m, interfaces, a) is Err,
    ensures
        noted_interfaces(m, interfaces, b) == noted_interfaces(m, interfaces, a),
    decreases b - a,
{
    if a < b {
        lemma_interfaces_fail(m, interfaces, a, b - 1);
    }
}

/// Finds out of which type the enums of a protocol are, from the arguments that
/// refer to them.
pub fn scan_enum(proto: &Protocol, enum_info: &mut EnumInfos) -> (r: Result<(), Error>)
    requires
        forall|i: int|
            #![trigger proto.interfaces@[i]]
            0 <= i < proto.interfaces@.len() ==> old(enum_info)@.contains_key(proto.interfaces@[i].name@),
    ensures
        match r {
            Ok(_) => noted_interfaces(old(enum_info)@, proto.interfaces@, proto.interfaces@.len() as int) == Ok::<
                Infos,
                ErrorView,
            >(final(enum_info)@),
            Err(e) => noted_interfaces(old(enum_info)@, proto.interfaces@, proto.interfaces@.len() as int) == Err::<
                Infos,
                ErrorView,
            >(e@),
        },
{
    let ghost m0 = enum_info@;
    let mut i: usize = 0;
    while i < proto.interfaces.len()
        invariant
            0 <= i <= proto.interfaces@.len(),
            m0 == old(enum_info)@,
            forall|i: int|
                #![trigger proto.interfaces@[i]]
                0 <= i < proto.interfaces@.len() ==> m0.contains_key(proto.interfaces@[i].name@),
            noted_interfaces(m0, proto.interfaces@, i as int) == Ok::<Infos, ErrorView>(enum_info@),
            forall|k: Seq<char>| m0.contains_key(k) ==> enum_info@.contains_key(k),
        decreases proto.interfaces@.len() - i,
    {
        let iface = &proto.interfaces[i];
        let seen = match scan_messages(iface.name.as_str(), &iface.requests, enum_info) {
            Ok(_) => scan_messages(iface.name.as_str(), &iface.events, enum_info),
            Err(e) => Err(e),
        };
        if let Err(e) = seen {
            proof {
                assert(noted_interfaces(m0, proto.interfaces@, i + 1) == Err::<Infos, ErrorView>(e@));
                lemma_interfaces_fail(m0, proto.interfaces@, i + 1, proto.interfaces@.len() as int);
            }
            return Err(e);
        }
        i = i + 1;
    }
    Ok(())
}

} // verus!
