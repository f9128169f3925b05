//! The code that is generated for enums.
use vstd::prelude::*;
use vstd::string::*;
use crate::codegen::args::texts;
use crate::codegen::docs::{doc_lines, generate_doc_comment};
use crate::codegen::infos::{lookup, EnumInfos, Infos};
use crate::codegen::names::{pascal_case, shouty_case, to_pascal_case, to_shouty_case};
use crate::spec_parser::protocol::{Entry, Enum};
use crate::text::{string_from, to_chars};

verus! {

/// The number of an enum value.
#[derive(Clone, Copy, Debug, PartialEq, Eq, Structural)]
pub enum MemberValue {
    Int(i32),
    Uint(u32),
}

/// A value of an enum.
#[derive(Debug)]
pub struct GeneratedMember {
    pub name: String,
    pub value: MemberValue,
    /// Its doc comment.
    pub summary: String,
}

/// What a [`GeneratedMember`] says.
pub struct MemberView {
    pub name: Seq<char>,
    pub value: MemberValue,
    pub summary: Seq<char>,
}

impl View for GeneratedMember {
    type V = MemberView;

    open spec fn view(&self) -> MemberView {
        MemberView { name: self.name@, value: self.value, summary: self.summary@ }
    }
}

/// The type that an enum becomes. A bitfield becomes a set of flags.
#[derive(Debug)]
pub struct GeneratedEnum {
    pub name: String,
    pub doc: Vec<String>,
    pub is_bitfield: bool,
    /// The type is represented by an `i32`, not a `u32`.
    pub is_int: bool,
    pub members: Vec<GeneratedMember>,
}

/// What a [`GeneratedEnum`] says.
pub struct EnumView {
    pub name: Seq<char>,
    pub doc: Seq<Seq<char>>,
    pub is_bitfield: bool,
    pub is_int: bool,
    pub members: Seq<MemberView>,
}

impl View for GeneratedEnum {
    type V = EnumView;

    open spec fn view(&self) -> EnumView {
        EnumView {
            name: self.name@,
            doc: texts(self.doc@),
            is_bitfield: self.is_bitfield,
            is_int: self.is_int,
            members: self.members@.map_values(|m: GeneratedMember| m@),
        }
    }
}

/// The `i32` with the same bits.
pub open spec fn reinterpret(value: u32) -> i32 {
    if value > i32::MAX {
        (value - 0x1_0000_0000) as i32
    } else {
        value as i32
    }
}

/// A text with a backslash in front of square brackets.
pub open spec fn escaped(s: Seq<char>) -> Seq<char>
    decreases s.len(),
{
    if s.len() == 0 {
        s
    } else {
        let rest = escaped(s.drop_last());
        if s.last() == '[' || s.last() == ']' {
            rest.push('\\').push(s.last())
        } else {
            rest.push(s.last())
        }
    }
}

/// All chars are decimal digits.
pub open spec fn all_digits(s: Seq<char>) -> bool {
    forall|i: int| 0 <= i < s.len() ==> '0' <= #[trigger] s[i] <= '9'
}

/// The name of an enum value. A number is no name, and gets an underscore.
pub open spec fn member_name(name: Seq<char>, is_bitfield: bool) -> Seq<char> {
    if all_digits(name) {
        "_"@ + name
    } else if is_bitfield {
        shouty_case(name)
    } else {
        pascal_case(name)
    }
}

/// A value of an enum.
pub open spec fn member_code(entry: Entry, is_bitfield: bool, is_int: bool) -> MemberView {
    MemberView {
        name: member_name(entry.name@, is_bitfield),
        value: if is_int {
            MemberValue::Int(reinterpret(entry.value))
        } else {
            MemberValue::Uint(entry.value)
        },
        summary: match entry.summary {
            Some(summary) => escaped(summary@),
            None => Seq::empty(),
        },
    }
}

/// The type that an enum becomes.
pub open spec fn enum_code(e: Enum, current: Seq<char>, infos: Infos) -> EnumView {
    let is_int = lookup(infos, current, e.name@)->Ok_0.is_int == Some(true);
    EnumView {
        name: pascal_case(e.name@),
        doc: doc_lines(e.description),
        is_bitfield: e.bitfield,
        is_int,
        members: e.entries@.map_values(|entry: Entry| member_code(entry, e.bitfield, is_int)),
    }
}

/// The enum is known, and known to be a bitfield if it is one.
pub open spec fn enum_known(e: Enum, current: Seq<char>, infos: Infos) -> bool {
    lookup(infos, current, e.name@) matches Ok(info) && info.is_bitfield == e.bitfield
}

/// Puts a backslash in front of square brackets.
pub(crate) fn escape_brackets(s: &str) -> (r: String)
    ensures
        r@ == escaped(s@),
{
    let chars = to_chars(s);
    let mut list: Vec<char> = Vec::new();
    let mut i: usize = 0;
    while i < chars.len()
        invariant
            0 <= i <= chars@.len(),
            chars@ == s@,
            list@ == escaped(s@.take(i as int)),
        decreases chars@.len() - i,
    {
        let c: char = chars[i];
        proof {
            assert(s@.take(i + 1).drop_last() =~= s@.take(i as int));
        }
        if c == '[' || c == ']' {
            list.push('\\');
        }
        list.push(c);
        i = i + 1;
    }
    proof {
        assert(s@.take(i as int) =~= s@);
    }
    string_from(list.as_slice())
}

/// Tells whether all chars are decimal digits.
fn is_number(s: &str) -> (r: bool)
    ensures
        r == all_digits(s@),
{
    let chars = to_chars(s);
    let mut i: usize = 0;
    while i < chars.len()
        invariant
            0 <= i <= chars@.len(),
            chars@ == s@,
            forall|j: int| 0 <= j < i ==> '0' <= #[trigger] s@[j] <= '9',
        decreases chars@.len() - i,
    {
        if chars[i] < '0' || chars[i] > '9' {
            proof {
                assert(!('0' <= s@[i as int] <= '9'));
            }
            return false;
        }
        i = i + 1;
    }
    true
}

/// A value of an enum.
fn generate_member(entry: &Entry, is_bitfield: bool, is_int: bool) -> (r: GeneratedMember)
    ensures
        r@ == member_code(*entry, is_bitfield, is_int),
{
    let name = if is_number(entry.name.as_str()) {
        "_".to_owned().concat(entry.name.as_str())
    } else if is_bitfield {
        to_shouty_case(entry.name.as_str())
    } else {
        to_pascal_case(entry.name.as_str())
    };
    let value = if is_int {
        MemberValue::Int(
            if entry.value > 0x7fff_ffff {
                (entry.value as i64 - 0x1_0000_0000) as i32
            } else {
                entry.value as i32
            },
        )
    } else {
        MemberValue::Uint(entry.value)
    };
    let summary = match &entry.summary {
        Some(summary) => escape_brackets(summary.as_str()),
        None => String::new(),
    };
    GeneratedMember { name, value, summary }
}

/// The type that an enum becomes.
fn generate_enum(e: &Enum, current_iface_name: &str, enum_info: &EnumInfos) -> (r: GeneratedEnum)
    requires
        enum_known(*e, current_iface_name@, enum_info@),
    ensures
        r@ == enum_code(*e, current_iface_name@, enum_info@),
{
    let info = match enum_info.get(current_iface_name, e.name.as_str()) {
        Ok(info) => info,
        Err(_) => vstd::pervasive::unreached(),
    };
    let is_int = info.is_int.unwrap_or(false);
    let mut members: Vec<GeneratedMember> = Vec::new();
    let mut i: usize = 0;
    while i < e.entries.len()
        invariant
            0 <= i <= e.entries@.len(),
            members@.len() == i,
            forall|j: int|
                #![trigger members@[j]]
                0 <= j < i ==> members@[j]@ == member_code(e.entries@[j], e.bitfield, is_int),
        decreases e.entries@.len() - i,
    {
        members.push(generate_member(&e.entries[i], e.bitfield, is_int));
        i = i + 1;
    }
    let r = GeneratedEnum {
        name: to_pascal_case(e.name.as_str()),
        doc: generate_doc_comment(&e.description),
        is_bitfield: e.bitfield,
        is_int,
        members,
    };
    proof {
        assert(r@.members =~= enum_code(*e, current_iface_name@, enum_info@).members);
    }
    r
}

/// The types that the enums of an interface become.
pub fn generate_enums(enums: &Vec<Enum>, current_iface_name: &str, enum_info: &EnumInfos) -> (r: Vec<GeneratedEnum>)
    requires
        forall|i: int|
            #![trigger enums@[i]]
            0 <= i < enums@.len() ==> enum_known(enums@[i], current_iface_name@, enum_info@),
    ensures
        r@.map_values(|e: GeneratedEnum| e@) == enums@.map_values(
            |e: Enum| enum_code(e, current_iface_name@, enum_info@),
        ),
{
    let mut list: Vec<GeneratedEnum> = Vec::new();
    let mut i: usize = 0;
    while i < enums.len()
        invariant
            0 <= i <= enums@.len(),
            forall|i: int|
                #![trigger enums@[i]]
                0 <= i < enums@.len() ==> enum_known(enums@[i], current_iface_name@, enum_info@),
            list@.len() == i,
            forall|j: int|
                #![trigger list@[j]]
                0 <= j < i ==> list@[j]@ == enum_code(enums@[j], current_iface_name@, enum_info@),
        decreases enums@.len() - i,
    {
        list.push(generate_enum(&enums[i], current_iface_name, enum_info));
        i = i + 1;
    }
    proof {
        assert(list@.map_values(|e: GeneratedEnum| e@) =~= enums@.map_values(
            |e: Enum| enum_code(e, current_iface_name@, enum_info@),
        ));
    }
    list
}

/// A backslash is put in front of each square bracket, and nothing else is changed.
pub proof fn brackets_are_escaped(a: Seq<char>, c: char, b: Seq<char>)
    ensures
        escaped(a.push(c) + b) == escaped(a) + (if c == '[' || c == ']' {
            seq!['\\', c]
        } else {
            seq![c]
        }) + escaped(b),
        escaped(Seq::empty()) == Seq::<char>::empty(),
    decreases b.len(),
{
    let own = if c == '[' || c == ']' {
        seq!['\\', c]
    } else {
        seq![c]
    };
    let all = a.push(c) + b;
    if b.len() == 0 {
        assert(all =~= a.push(c));
        assert(all.drop_last() =~= a);
        assert(escaped(all) =~= escaped(a) + own + escaped(b));
    } else {
        brackets_are_escaped(a, c, b.drop_last());
        assert(all.drop_last() =~= a.push(c) + b.drop_last());
        assert(escaped(all) =~= escaped(a) + own + escaped(b));
    }
}

/// A number is no name, so that it gets an underscore. Other names are kept apart by the way
/// they are written.
pub proof fn numbers_are_no_names(name: Seq<char>, is_bitfield: bool)
    ensures
        (forall|i: int| 0 <= i < name.len() ==> '0' <= #[trigger] name[i] <= '9') ==> member_name(name, is_bitfield)
            == seq!['_'] + name,
        (exists|i: int| 0 <= i < name.len() && !('0' <= #[trigger] name[i] <= '9')) ==> member_name(name, is_bitfield)
            == if is_bitfield {
            shouty_case(name)
        } else {
            pascal_case(name)
        },
{
    reveal_strlit("_");
    assert("_"@ =~= seq!['_']);
}

} // verus!
