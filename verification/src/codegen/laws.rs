//! What generated code promises of the messages it writes.
use vstd::prelude::*;
use crate::codegen::args::{borrow_lifetime, borrows, enum_path};
use crate::codegen::docs::{begins_with_reference, doc_line, doc_lines, leading_reference, lemma_reference_unique};
use crate::codegen::infos::{infos_before, lemma_target, lookup, noted, target, Infos};
use crate::codegen::maps::EnumInfo;
use crate::codegen::messages::{fd_count, length_term, word_count, LengthTerm};
use crate::codegen::names::pascal_case;
use crate::codegen::protocol::versions_before;
use crate::codegen::{Error, ErrorView};
use crate::spec_parser::protocol::{Arg, Enum, Interface, Type};
use crate::text::{decimal, split_on, trim_end, trim_start, trimmed};
use crate::wire::message::{message_len, values_fds, values_len, ValueView};
use crate::wire::pop::aligned;

verus! {

/// The value has the type.
pub open spec fn has_value_type(value: ValueView, typ: Type) -> bool {
    match value {
        ValueView::Int(_) => typ == Type::Int,
        ValueView::Uint(_) => typ == Type::Uint,
        ValueView::Fixed(_) => typ == Type::Fixed,
        ValueView::Object(_) => typ == Type::Object,
        ValueView::NewId(_) => typ == Type::NewId,
        ValueView::String(_) => typ == Type::String,
        ValueView::Array(_) => typ == Type::Array,
        ValueView::Fd(_) => typ == Type::Fd,
    }
}

/// What a field adds to the length of a message.
pub open spec fn term_len(term: LengthTerm, value: ValueView) -> nat {
    match (term, value) {
        (LengthTerm::String, ValueView::String(s)) => aligned(s.len() + 1),
        (LengthTerm::Array, ValueView::Array(a)) => aligned(a.len()),
        _ => 0,
    }
}

/// What the first `n` fields add to the length of a message.
pub open spec fn terms_len(args: Seq<Arg>, values: Seq<ValueView>, n: int) -> nat
    decreases n,
{
    if n <= 0 {
        0
    } else {
        terms_len(args, values, n - 1) + term_len(length_term(args[n - 1].typ), values[n - 1])
    }
}

/// The length that generated code computes for a message, from its fixed length
/// and what the fields add to it, is the length of what it writes. The number of
/// file descriptors that it announces is the number of those it hands over.
pub proof fn generated_length_law(args: Seq<Arg>, values: Seq<ValueView>)
    requires
        args.len() == values.len(),
        forall|i: int| #![trigger values[i]] 0 <= i < values.len() ==> has_value_type(values[i], args[i].typ),
    ensures
        4 * word_count(args, args.len() as int) + 8 + terms_len(args, values, args.len() as int) == message_len(values),
        fd_count(args, args.len() as int) == values_fds(values, values.len() as int).len(),
{
    lemma_length(args, values, args.len() as int);
}

proof fn lemma_length(args: Seq<Arg>, values: Seq<ValueView>, n: int)
    requires
        args.len() == values.len(),
        0 <= n <= args.len(),
        forall|i: int| #![trigger values[i]] 0 <= i < values.len() ==> has_value_type(values[i], args[i].typ),
    ensures
        4 * word_count(args, n) + terms_len(args, values, n) == values_len(values, n),
        fd_count(args, n) == values_fds(values, n).len(),
    decreases n,
{
    if n > 0 {
        lemma_length(args, values, n - 1);
        assert(has_value_type(values[n - 1], args[n - 1].typ));
    }
}

/// An enum of another interface is named with the interface in front of it, and one of the
/// same interface by its own name. It is looked up there, and nowhere else.
pub proof fn enums_are_looked_up(m: Infos, current: Seq<char>, iface: Seq<char>, name: Seq<char>)
    requires
        !iface.contains('.'),
    ensures
        ({
            let far = iface.push('.') + name;
            &&& target(current, far) == (iface, name)
            &&& match lookup(m, current, far) {
                Ok(info) => m.contains_key(iface) && m[iface].contains_key(name) && info == m[iface][name],
                Err(ErrorView::UnknownInterface(missing)) => missing == iface && !m.contains_key(iface),
                Err(ErrorView::UnknownEnum(missing)) => missing == name && m.contains_key(iface)
                    && !m[iface].contains_key(name),
                Err(_) => false,
            }
        }),
        !name.contains('.') ==> match lookup(m, current, name) {
            Ok(info) => m.contains_key(current) && m[current].contains_key(name) && info == m[current][name],
            Err(ErrorView::UnknownInterface(missing)) => missing == current && !m.contains_key(current),
            Err(ErrorView::UnknownEnum(missing)) => missing == name && m.contains_key(current)
                && !m[current].contains_key(name),
            Err(_) => false,
        },
{
    lemma_target(current, iface.push('.') + name, iface, name);
}

/// The type of an enum stands in the module `enums` of its interface. That of another
/// interface is reached from the root, through the module of the version.
pub proof fn enum_types_are_named(iface: Seq<char>, name: Seq<char>, versions: Map<Seq<char>, u32>)
    requires
        !iface.contains('.'),
    ensures
        ({
            let far = enum_path(iface.push('.') + name, versions);
            &&& far.segments == seq![
                "__generated_root"@,
                iface,
                "v"@ + decimal(versions[iface] as nat),
                "enums"@,
                pascal_case(name),
            ]
            &&& !far.leading_colon
        }),
        !name.contains('.') ==> enum_path(name, versions).segments == seq!["enums"@, pascal_case(name)],
{
    let far = iface.push('.') + name;
    lemma_target(far, far, iface, name);
}

/// An argument decides the type of the enum that it refers to, unless another one has
/// decided otherwise. Nothing else changes, and an argument without an enum decides nothing.
pub proof fn arguments_decide_enums(m: Infos, current: Seq<char>, arg: Arg, iface: Seq<char>, name: Seq<char>)
    ensures
        arg.enum_ is None ==> noted(m, current, arg) == Ok::<Infos, ErrorView>(m),
        arg.enum_ matches Some(enum_) ==> match noted(m, current, arg) {
            Ok(m2) => {
                let (i, n) = target(current, enum_@);
                &&& m.contains_key(i) && m[i].contains_key(n)
                &&& m2.contains_key(i) && m2[i].contains_key(n)
                &&& m2[i][n].is_int == Some(arg.typ == Type::Int)
                &&& m2[i][n].is_bitfield == m[i][n].is_bitfield
                &&& m[i][n].is_int is Some ==> m[i][n].is_int == m2[i][n].is_int
                &&& m2.contains_key(iface) == m.contains_key(iface)
                &&& m.contains_key(iface) ==> m2[iface].contains_key(name) == m[iface].contains_key(name)
                &&& m.contains_key(iface) && m[iface].contains_key(name) && (iface, name) != (i, n) ==> m2[iface][name]
                    == m[iface][name]
            },
            Err(ErrorView::BadEnumType(bad)) => {
                let (i, n) = target(current, enum_@);
                &&& bad == enum_@
                &&& m[i][n].is_int == Some(arg.typ != Type::Int)
            },
            Err(e) => lookup(m, current, enum_@) == Err::<EnumInfo, ErrorView>(e),
        },
{
}

/// An enum is known to be a bitfield if it says so, and of no type before an argument refers
/// to it. The last one of a name counts, and the last interface of a name.
pub proof fn enums_begin_undecided(interfaces: Seq<Interface>, enums: Seq<Enum>, n: int)
    requires
        0 < n,
        interfaces.len() == n,
        interfaces[n - 1].enums@ == enums,
        enums.len() > 0,
    ensures
        ({
            let m = infos_before(interfaces, n);
            let iface = interfaces[n - 1].name@;
            let last = enums[enums.len() - 1];
            &&& m.contains_key(iface)
            &&& m[iface].contains_key(last.name@)
            &&& m[iface][last.name@].is_bitfield == last.bitfield
            &&& m[iface][last.name@].is_int is None
        }),
        versions_before(interfaces, n)[interfaces[n - 1].name@] == interfaces[n - 1].version,
        forall|other: Seq<char>|
            other != interfaces[n - 1].name@ ==> #[trigger] versions_before(interfaces, n)[other] == versions_before(
                interfaces,
                n - 1,
            )[other],
{
}

/// Texts and arrays are borrowed from a message, and nothing else is. What is owned has no
/// lifetime.
pub proof fn texts_and_arrays_are_borrowed(ty: Type)
    ensures
        borrows(ty) <==> ty is String || ty is Array,
        borrow_lifetime(true) is None,
        borrow_lifetime(false) == Some("'a"@),
{
}

/// A doc comment has the summary, an empty line, and a line for each line of the text, in
/// order. There is none without a description.
pub proof fn doc_comments_have_all_lines(summary: String, text: String, i: int)
    ensures
        ({
            let doc = doc_lines(Some((summary, text)));
            let lines = split_on(text@, '\n');
            &&& doc.len() == lines.len() + 2
            &&& doc[0] == summary@
            &&& doc[1].len() == 0
            &&& 0 <= i < lines.len() ==> doc[i + 2] == doc_line(trimmed(lines[i]))
        }),
        doc_lines(None).len() == 0,
{
}

/// A line that begins with a number in square brackets defines a reference: the number is
/// kept, a colon and a space follow it, and then the rest. Such a line with a colon is kept
/// as it is.
pub proof fn references_are_defined(s: Seq<char>, n: int)
    requires
        begins_with_reference(s, n),
    ensures
        n < s.len() && s[n] == ':' ==> doc_line(s) == s,
        !(n < s.len() && s[n] == ':') ==> doc_line(s) == s.take(n) + seq![':', ' '] + trimmed(s.skip(n)),
{
    lemma_reference_unique(s, leading_reference(s)->0, n);
    let head = s.take(n);
    assert(head[0] == '[');
    assert(head.last() == ']');
    assert(trim_start(head) == head);
    assert(trim_end(head) == head);
}

/// An error keeps the name that it is about.
pub proof fn errors_keep_names(name: String)
    ensures
        (Error::UnknownInterface(name))@ == ErrorView::UnknownInterface(name@),
        (Error::UnknownEnum(name))@ == ErrorView::UnknownEnum(name@),
        (Error::BadEnumType(name))@ == ErrorView::BadEnumType(name@),
{
}

} // verus!
