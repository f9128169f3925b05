//! The types that arguments have in generated code.
use ahash::AHashMap;
use vstd::pervasive::unreached;
use vstd::prelude::*;
use vstd::string::*;
use crate::codegen::infos::{lemma_target, target};
use crate::codegen::maps::{get_version, versions_of};
use crate::codegen::names::{pascal_case, to_pascal_case};
use crate::spec_parser::protocol::{Arg, Type};
use crate::text::{decimal, split_once, to_decimal};

verus! {

/// A path to an item, such as `a::b`, or `::a::b` with a leading colon.
#[derive(Debug)]
pub struct Path {
    pub leading_colon: bool,
    pub segments: Vec<String>,
}

/// What a [`Path`] says.
pub struct PathView {
    pub leading_colon: bool,
    pub segments: Seq<Seq<char>>,
}

/// The texts in a list.
pub open spec fn texts(list: Seq<String>) -> Seq<Seq<char>> {
    list.map_values(|s: String| s@)
}

impl View for Path {
    type V = PathView;

    open spec fn view(&self) -> PathView {
        PathView { leading_colon: self.leading_colon, segments: texts(self.segments@) }
    }
}

/// The type of an argument.
#[derive(Debug)]
pub enum ArgType {
    /// A type without parameters.
    Plain(Path),
    /// A type with a lifetime, `path<lifetime>`.
    Borrowed(Path, String),
    /// `&lifetime [u8]`.
    Slice(String),
    /// `Box<[u8]>`.
    BoxedSlice,
}

/// What an [`ArgType`] says.
pub enum ArgTypeView {
    Plain(PathView),
    Borrowed(PathView, Seq<char>),
    Slice(Seq<char>),
    BoxedSlice,
}

impl View for ArgType {
    type V = ArgTypeView;

    open spec fn view(&self) -> ArgTypeView {
        match *self {
            ArgType::Plain(path) => ArgTypeView::Plain(path@),
            ArgType::Borrowed(path, lifetime) => ArgTypeView::Borrowed(path@, lifetime@),
            ArgType::Slice(lifetime) => ArgTypeView::Slice(lifetime@),
            ArgType::BoxedSlice => ArgTypeView::BoxedSlice,
        }
    }
}

/// The path of a type of the support library.
pub open spec fn support_path(name: Seq<char>) -> PathView {
    PathView { leading_colon: true, segments: seq!["runa_wayland_scanner"@, "types"@, name] }
}

/// The path of a primitive type.
pub open spec fn primitive_path(name: Seq<char>) -> PathView {
    PathView { leading_colon: false, segments: seq![name] }
}

/// The path of the type of an enum. The enums of an interface are in its module
/// `enums`. Those of another interface are reached from the root of the
/// generated code, in the version that the interface has.
pub open spec fn enum_path(enum_: Seq<char>, versions: Map<Seq<char>, u32>) -> PathView {
    if enum_.contains('.') {
        let (iface, name) = target(enum_, enum_);
        PathView {
            leading_colon: false,
            segments: seq![
                "__generated_root"@,
                iface,
                "v"@ + decimal(versions[iface] as nat),
                "enums"@,
                pascal_case(name),
            ],
        }
    } else {
        PathView { leading_colon: false, segments: seq!["enums"@, pascal_case(enum_)] }
    }
}

/// The interface that an enum belongs to has a version, where it is named.
pub open spec fn enum_has_version(enum_: Seq<char>, versions: Map<Seq<char>, u32>) -> bool {
    enum_.contains('.') ==> versions.contains_key(target(enum_, enum_).0)
}

/// The type of an argument. Texts and arrays are borrowed where there is a
/// lifetime.
pub open spec fn arg_type(arg: Arg, lifetime: Option<Seq<char>>, versions: Map<Seq<char>, u32>) -> ArgTypeView {
    match arg.enum_ {
        Some(enum_) => ArgTypeView::Plain(enum_path(enum_@, versions)),
        None => match arg.typ {
            Type::Int => ArgTypeView::Plain(primitive_path("i32"@)),
            Type::Uint => ArgTypeView::Plain(primitive_path("u32"@)),
            Type::Fixed => ArgTypeView::Plain(support_path("Fixed"@)),
            Type::Array => match lifetime {
                Some(lifetime) => ArgTypeView::Slice(lifetime),
                None => ArgTypeView::BoxedSlice,
            },
            Type::Fd => ArgTypeView::Plain(support_path("Fd"@)),
            Type::String => match lifetime {
                Some(lifetime) => ArgTypeView::Borrowed(support_path("Str"@), lifetime),
                None => ArgTypeView::Plain(support_path("String"@)),
            },
            Type::Object => ArgTypeView::Plain(support_path("Object"@)),
            Type::NewId => ArgTypeView::Plain(support_path("NewId"@)),
            Type::Destructor => arbitrary(),
        },
    }
}

/// An argument has a type in generated code: it is no destructor, and its enum
/// is in an interface with a version.
pub open spec fn has_type(arg: Arg, versions: Map<Seq<char>, u32>) -> bool {
    match arg.enum_ {
        Some(enum_) => enum_has_version(enum_@, versions),
        None => arg.typ != Type::Destructor,
    }
}

fn support(name: &str) -> (r: Path)
    ensures
        r@ == support_path(name@),
{
    let mut segments: Vec<String> = Vec::new();
    segments.push("runa_wayland_scanner".to_owned());
    segments.push("types".to_owned());
    segments.push(name.to_owned());
    proof {
        assert(texts(segments@) =~= seq!["runa_wayland_scanner"@, "types"@, name@]);
    }
    Path { leading_colon: true, segments }
}

fn primitive(name: &str) -> (r: Path)
    ensures
        r@ == primitive_path(name@),
{
    let mut segments: Vec<String> = Vec::new();
    segments.push(name.to_owned());
    proof {
        assert(texts(segments@) =~= seq![name@]);
    }
    Path { leading_colon: false, segments }
}

/// The path of the type of an enum.
pub fn enum_type_name(enum_: &str, iface_version: &AHashMap<String, u32>) -> (r: Path)
    requires
        enum_has_version(enum_@, versions_of(*iface_version)),
    ensures
        r@ == enum_path(enum_@, versions_of(*iface_version)),
{
    let mut segments: Vec<String> = Vec::new();
    match split_once(enum_, '.') {
        Some((iface, name)) => {
            proof {
                lemma_target(enum_@, enum_@, iface@, name@);
            }
            let version: u32 = get_version(iface_version, iface.as_str()).unwrap();
            let module = "v".to_owned().concat(to_decimal(version).as_str());
            let pascal = to_pascal_case(name.as_str());
            segments.push("__generated_root".to_owned());
            segments.push(iface);
            segments.push(module);
            segments.push("enums".to_owned());
            segments.push(pascal);
            proof {
                assert(texts(segments@) =~= enum_path(enum_@, versions_of(*iface_version)).segments);
            }
        },
        None => {
            segments.push("enums".to_owned());
            segments.push(to_pascal_case(enum_));
            proof {
                assert(texts(segments@) =~= enum_path(enum_@, versions_of(*iface_version)).segments);
            }
        },
    }
    Path { leading_colon: false, segments }
}

/// A lifetime, by its name.
pub open spec fn lifetime_name(lifetime: Option<String>) -> Option<Seq<char>> {
    match lifetime {
        Some(name) => Some(name@),
        None => None,
    }
}

/// The type of an argument in generated code, which borrows for the given
/// lifetime if there is one.
pub fn generate_arg_type_with_lifetime(arg: &Arg, lifetime: &Option<String>, iface_version: &AHashMap<String, u32>) -> (r: ArgType)
    requires
        has_type(*arg, versions_of(*iface_version)),
    ensures
        r@ == arg_type(*arg, lifetime_name(*lifetime), versions_of(*iface_version)),
{
    if let Some(enum_) = &arg.enum_ {
        ArgType::Plain(enum_type_name(enum_.as_str(), iface_version))
    } else {
        match arg.typ {
            Type::Int => ArgType::Plain(primitive("i32")),
            Type::Uint => ArgType::Plain(primitive("u32")),
            Type::Fixed => ArgType::Plain(support("Fixed")),
            Type::Array => if let Some(lifetime) = lifetime {
                ArgType::Slice(lifetime.clone())
            } else {
                ArgType::BoxedSlice
            },
            Type::Fd => ArgType::Plain(support("Fd")),
            Type::String => if let Some(lifetime) = lifetime {
                ArgType::Borrowed(support("Str"), lifetime.clone())
            } else {
                ArgType::Plain(support("String"))
            },
            Type::Object => ArgType::Plain(support("Object")),
            Type::NewId => ArgType::Plain(support("NewId")),
            Type::Destructor => unreached(),
        }
    }
}

/// The lifetime that generated messages borrow for.
pub open spec fn borrow_lifetime(is_owned: bool) -> Option<Seq<char>> {
    if is_owned {
        None
    } else {
        Some("'a"@)
    }
}

/// The type of an argument in generated code. Unless it is owned, it borrows for
/// the lifetime `'a`.
pub fn generate_arg_type(arg: &Arg, is_owned: bool, iface_version: &AHashMap<String, u32>) -> (r: ArgType)
    requires
        has_type(*arg, versions_of(*iface_version)),
    ensures
        r@ == arg_type(*arg, borrow_lifetime(is_owned), versions_of(*iface_version)),
{
    let lifetime = if is_owned {
        None
    } else {
        Some("'a".to_owned())
    };
    generate_arg_type_with_lifetime(arg, &lifetime, iface_version)
}

/// Values of the type are borrowed from a message.
pub open spec fn borrows(ty: Type) -> bool {
    ty == Type::String || ty == Type::Array
}

/// Tells whether values of the type are borrowed from a message.
pub fn type_is_borrowed(ty: &Type) -> (r: bool)
    ensures
        r == borrows(*ty),
{
    match ty {
        Type::Int | Type::Uint | Type::Fixed | Type::Fd | Type::Object | Type::NewId => false,
        Type::String | Type::Array => true,
        Type::Destructor => false,
    }
}

} // verus!
