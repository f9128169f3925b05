//! Impls of `Object`, for single types and for enums of them.
use vstd::prelude::*;
use vstd::string::*;
use crate::codegen::args::texts;
use crate::codegen::names::{pascal_case, to_pascal_case};
use crate::macros::dispatch::{view_items, DispatchImpl, DispatchItem, DispatchItemView, GenericArg, PathArgs, PathSegment};
use crate::text::{ends_with, has_suffix, str_eq, trim_end_matches, trim_start_matches, without_prefix, without_suffix};

verus! {

/// The attributes of the macro for single types.
#[derive(Debug)]
pub struct Attributes {
    /// The message type.
    pub message: Option<String>,
    /// The path to the server crate.
    pub crate_: Option<String>,
    /// The interface name.
    pub interface: Option<String>,
    /// The function to call when the client disconnects.
    pub on_disconnect: Option<String>,
}

/// The message type of an impl.
#[derive(Debug)]
pub enum MessageTy {
    /// As it was given.
    Given(String),
    /// An item with this name, in the module of the trait.
    InModule(String),
}

/// What a [`MessageTy`] says.
pub enum MessageTyView {
    Given(Seq<char>),
    InModule(Seq<char>),
}

impl View for MessageTy {
    type V = MessageTyView;

    open spec fn view(&self) -> MessageTyView {
        match *self {
            MessageTy::Given(path) => MessageTyView::Given(path@),
            MessageTy::InModule(name) => MessageTyView::InModule(name@),
        }
    }
}

/// The arm that dispatches a message: the variant of the message type, the method,
/// and the fields that the method is called with.
#[derive(Debug)]
pub struct MatchArm {
    pub variant: String,
    pub method: String,
    pub fields: Vec<String>,
}

/// What a [`MatchArm`] says.
pub struct MatchArmView {
    pub variant: Seq<char>,
    pub method: Seq<char>,
    pub fields: Seq<Seq<char>>,
}

impl View for MatchArm {
    type V = MatchArmView;

    open spec fn view(&self) -> MatchArmView {
        MatchArmView { variant: self.variant@, method: self.method@, fields: texts(self.fields@) }
    }
}

/// The impl of `Object` for a single type.
#[derive(Debug)]
pub struct ObjectImpl {
    pub message: MessageTy,
    /// The message type has the lifetime `'a`.
    pub message_lifetime: bool,
    /// The path to the server crate.
    pub crate_path: String,
    /// The type of the context.
    pub ctx: String,
    /// The interface name. Where it is not given, it is `NAME` in the module of the
    /// trait.
    pub interface: Option<String>,
    pub on_disconnect: Option<String>,
    pub arms: Vec<MatchArm>,
}

/// Why there is no impl for a single type.
#[derive(Clone, Copy, Debug, PartialEq, Eq, Structural)]
pub enum ObjectError {
    EmptyPath,
    /// The trait name does not end with Dispatch, and no message type is given.
    NoMessage,
    /// The trait does not have a single type parameter.
    ParameterCount,
}

/// The path to the server crate, if none is given.
pub const DEFAULT_CRATE: &'static str = "::wl_server";

/// The message type: the trait name without its suffix, unless it is given.
pub open spec fn message_ty(message: Option<String>, trait_: Seq<PathSegment>) -> Result<MessageTyView, ObjectError> {
    match message {
        Some(path) => Ok(MessageTyView::Given(path@)),
        None => if trait_.len() == 0 {
            Err(ObjectError::EmptyPath)
        } else if has_suffix(trait_.last().ident@, "Dispatch"@) {
            Ok(MessageTyView::InModule(without_suffix(trait_.last().ident@, "Dispatch"@)))
        } else {
            Err(ObjectError::NoMessage)
        },
    }
}

/// The type of the context: the only parameter of the trait.
pub open spec fn context_ty(trait_: Seq<PathSegment>) -> Result<Seq<char>, ObjectError> {
    if trait_.len() == 0 {
        Err(ObjectError::EmptyPath)
    } else {
        match trait_.last().arguments {
            PathArgs::AngleBracketed(args) => if args@.len() == 1 {
                match args@[0] {
                    GenericArg::PathType(path) => Ok(path@),
                    GenericArg::Other(_) => Err(ObjectError::ParameterCount),
                }
            } else {
                Err(ObjectError::ParameterCount)
            },
            _ => Err(ObjectError::ParameterCount),
        }
    }
}

/// The arm for a method. A field has the name of the argument, without underscores
/// at its start.
pub open spec fn arm_of(item: DispatchItemView) -> MatchArmView {
    MatchArmView {
        variant: pascal_case(item.ident),
        method: item.ident,
        fields: item.args.map_values(|arg: Seq<char>| without_prefix(arg, '_')),
    }
}

/// What is given, or else the default.
pub open spec fn given_or(given: Option<String>, default: Seq<char>) -> Seq<char> {
    match given {
        Some(s) => s@,
        None => default,
    }
}

/// The arm for a method.
fn generate_arm(item: &DispatchItem) -> (r: MatchArm)
    ensures
        r@ == arm_of(item@),
{
    let mut fields: Vec<String> = Vec::new();
    let mut i: usize = 0;
    while i < item.args.len()
        invariant
            0 <= i <= item.args@.len(),
            fields@.len() == i,
            forall|j: int| #![trigger fields@[j]] 0 <= j < i ==> fields@[j]@ == without_prefix(item.args@[j]@, '_'),
        decreases item.args@.len() - i,
    {
        fields.push(trim_start_matches(item.args[i].as_str(), '_'));
        i = i + 1;
    }
    let r = MatchArm {
        variant: to_pascal_case(item.ident.as_str()),
        method: item.ident.clone(),
        fields,
    };
    proof {
        assert(r@.fields =~= arm_of(item@).fields);
    }
    r
}

/// The impl of `Object` for a single type, from its impl of `RequestDispatch`, whose
/// trait and items are given.
pub fn wayland_object(attr: Attributes, trait_: &Vec<PathSegment>, item: &DispatchImpl) -> (r: Result<
    ObjectImpl,
    ObjectError,
>)
    ensures
        match message_ty(attr.message, trait_@) {
            Err(e) => r == Err::<ObjectImpl, ObjectError>(e),
            Ok(message) => match context_ty(trait_@) {
                Err(e) => r == Err::<ObjectImpl, ObjectError>(e),
                Ok(ctx) => r matches Ok(code) && {
                    &&& code.message@ == message
                    &&& code.message_lifetime == item.has_lifetime
                    &&& code.crate_path@ == given_or(attr.crate_, DEFAULT_CRATE@)
                    &&& code.ctx@ == ctx
                    &&& code.interface == attr.interface
                    &&& code.on_disconnect == attr.on_disconnect
                    &&& code.arms@.map_values(|a: MatchArm| a@) == view_items(item.items@).map_values(
                        |i: DispatchItemView| arm_of(i),
                    )
                },
            },
        },
{
    let message = match attr.message {
        Some(path) => MessageTy::Given(path),
        None => {
            if trait_.len() == 0 {
                return Err(ObjectError::EmptyPath);
            }
            let last = &trait_[trait_.len() - 1].ident;
            if ends_with(last.as_str(), "Dispatch") {
                MessageTy::InModule(trim_end_matches(last.as_str(), "Dispatch"))
            } else {
                return Err(ObjectError::NoMessage);
            }
        },
    };
    if trait_.len() == 0 {
        return Err(ObjectError::EmptyPath);
    }
    let ctx = match &trait_[trait_.len() - 1].arguments {
        PathArgs::AngleBracketed(args) => {
            if args.len() != 1 {
                return Err(ObjectError::ParameterCount);
            }
            match &args[0] {
                GenericArg::PathType(path) => path.clone(),
                GenericArg::Other(_) => {
                    return Err(ObjectError::ParameterCount);
                },
            }
        },
        _ => {
            return Err(ObjectError::ParameterCount);
        },
    };
    let crate_path = match attr.crate_ {
        Some(path) => path,
        None => DEFAULT_CRATE.to_owned(),
    };
    let mut arms: Vec<MatchArm> = Vec::new();
    let mut i: usize = 0;
    while i < item.items.len()
        invariant
            0 <= i <= item.items@.len(),
            arms@.len() == i,
            forall|j: int| #![trigger arms@[j]] 0 <= j < i ==> arms@[j]@ == arm_of(item.items@[j]@),
        decreases item.items@.len() - i,
    {
        arms.push(generate_arm(&item.items[i]));
        i = i + 1;
    }
    proof {
        assert(arms@.map_values(|a: MatchArm| a@) =~= view_items(item.items@).map_values(
            |i: DispatchItemView| arm_of(i),
        ));
    }
    Ok(
        ObjectImpl {
            message,
            message_lifetime: item.has_lifetime,
            crate_path,
            ctx,
            interface: attr.interface,
            on_disconnect: attr.on_disconnect,
            arms,
        },
    )
}

/// The fields of an enum variant.
#[derive(Debug)]
pub enum Fields {
    /// Named fields, by their number.
    Named(usize),
    /// Unnamed fields, by their types.
    Unnamed(Vec<String>),
    Unit,
}

/// A variant of an enum.
#[derive(Debug)]
pub struct Variant {
    pub ident: String,
    pub has_discriminant: bool,
    pub fields: Fields,
}

/// A type that the macro for enums is attached to.
#[derive(Debug)]
pub struct DeriveInput {
    /// The variants. None if the type is no enum.
    pub variants: Option<Vec<Variant>>,
    /// The names of the type parameters.
    pub type_params: Vec<String>,
    /// The path to the server crate.
    pub crate_: Option<String>,
    /// The context type that the impl is for.
    pub context: Option<String>,
}

/// Why there is no impl for an enum.
#[derive(Clone, Copy, Debug, PartialEq, Eq, Structural)]
pub enum EnumError {
    /// Enum expected.
    NoEnum,
    /// Enum must have at least one variant.
    NoVariant,
    /// The fields of the first variant have names.
    FirstNotUnnamed,
    /// Enum variant must have at least one field.
    FirstEmpty,
}

/// What is dispatched to a variant.
#[derive(Clone, Copy, Debug, PartialEq, Eq, Structural)]
pub enum VariantArm {
    /// The message is read and handed to the object.
    Dispatch,
    /// Enum discriminant not supported.
    Discriminant,
    /// Enum variant must have a single field.
    NotSingle,
}

/// The code for a variant.
#[derive(Debug)]
pub struct VariantCode {
    pub ident: String,
    /// The type of the object.
    pub ty: String,
    pub arm: VariantArm,
    /// The error type of the object has to be the one of the first variant.
    pub same_error: bool,
}

/// What a [`VariantCode`] says.
pub struct VariantCodeView {
    pub ident: Seq<char>,
    pub ty: Seq<char>,
    pub arm: VariantArm,
    pub same_error: bool,
}

impl View for VariantCode {
    type V = VariantCodeView;

    open spec fn view(&self) -> VariantCodeView {
        VariantCodeView { ident: self.ident@, ty: self.ty@, arm: self.arm, same_error: self.same_error }
    }
}

/// The impl of `Object` for an enum.
#[derive(Debug)]
pub struct EnumImpl {
    pub crate_path: String,
    /// The context type that the impl is for.
    pub context_param: String,
    /// The parameter `Ctx` has to be added to those of the enum.
    pub add_ctx: bool,
    /// `Ctx` has to live as long as the future.
    pub ctx_lifetime_bound: bool,
    /// The type whose error type the enum has.
    pub first_ty: String,
    /// In the order of the variants. Each also becomes a `From` impl.
    pub variants: Vec<VariantCode>,
}

/// The fields have no names, and there is at least one.
pub open spec fn has_unnamed(fields: Fields) -> bool {
    fields matches Fields::Unnamed(types) && types@.len() > 0
}

/// The code for the variant with number `i`.
pub open spec fn variant_code(variants: Seq<Variant>, i: int) -> VariantCodeView {
    let v = variants[i];
    let types = v.fields->Unnamed_0@;
    VariantCodeView {
        ident: v.ident@,
        ty: types[0]@,
        arm: if v.has_discriminant {
            VariantArm::Discriminant
        } else if types.len() != 1 {
            VariantArm::NotSingle
        } else {
            VariantArm::Dispatch
        },
        same_error: i != 0,
    }
}

/// What is wrong with an enum.
pub open spec fn enum_error(input: DeriveInput) -> Option<EnumError> {
    match input.variants {
        None => Some(EnumError::NoEnum),
        Some(variants) => if variants@.len() == 0 {
            Some(EnumError::NoVariant)
        } else {
            match variants@[0].fields {
                Fields::Unnamed(types) => if types@.len() == 0 {
                    Some(EnumError::FirstEmpty)
                } else {
                    None
                },
                _ => Some(EnumError::FirstNotUnnamed),
            }
        },
    }
}

/// There is a type parameter with the given name.
pub open spec fn has_param(params: Seq<String>, name: Seq<char>) -> bool {
    exists|i: int| #![trigger params[i]] 0 <= i < params.len() && params[i]@ == name
}

/// Tells whether there is a type parameter with the given name.
fn find_param(params: &Vec<String>, name: &str) -> (r: bool)
    ensures
        r == has_param(params@, name@),
{
    let mut i: usize = 0;
    while i < params.len()
        invariant
            0 <= i <= params@.len(),
            forall|j: int| #![trigger params@[j]] 0 <= j < i ==> params@[j]@ != name@,
        decreases params@.len() - i,
    {
        if str_eq(params[i].as_str(), name) {
            return true;
        }
        i = i + 1;
    }
    false
}

/// The impl of `Object` for an enum, which hands everything on to its variants. If
/// no context is given, the impl is generic over the context type `Ctx`. All
/// variants have to have unnamed fields.
pub fn interface_message_dispatch_for_enum(input: &DeriveInput) -> (r: Result<EnumImpl, EnumError>)
    requires
        enum_error(*input) is None ==> forall|i: int|
            #![trigger (input.variants->0)@[i]]
            0 <= i < (input.variants->0)@.len() ==> has_unnamed((input.variants->0)@[i].fields),
    ensures
        match enum_error(*input) {
            Some(e) => r == Err::<EnumImpl, EnumError>(e),
            None => r matches Ok(code) && {
                let variants = (input.variants->0)@;
                &&& code.crate_path@ == given_or(input.crate_, DEFAULT_CRATE@)
                &&& code.context_param@ == given_or(input.context, "Ctx"@)
                &&& code.add_ctx == (input.context is None && !has_param(input.type_params@, "Ctx"@))
                &&& code.ctx_lifetime_bound == input.context is None
                &&& code.first_ty@ == variants[0].fields->Unnamed_0@[0]@
                &&& code.variants@.map_values(|v: VariantCode| v@) == Seq::new(
                    variants.len(),
                    |i: int| variant_code(variants, i),
                )
            },
        },
{
    let variants = match &input.variants {
        Some(variants) => variants,
        None => {
            return Err(EnumError::NoEnum);
        },
    };
    if variants.len() == 0 {
        return Err(EnumError::NoVariant);
    }
    let first_ty = match &variants[0].fields {
        Fields::Unnamed(types) => {
            if types.len() == 0 {
                return Err(EnumError::FirstEmpty);
            }
            types[0].clone()
        },
        _ => {
            return Err(EnumError::FirstNotUnnamed);
        },
    };
    let mut list: Vec<VariantCode> = Vec::new();
    let mut i: usize = 0;
    while i < variants.len()
        invariant
            0 <= i <= variants@.len(),
            forall|i: int|
                #![trigger variants@[i]]
                0 <= i < variants@.len() ==> has_unnamed(variants@[i].fields),
            list@.len() == i,
            forall|j: int| #![trigger list@[j]] 0 <= j < i ==> list@[j]@ == variant_code(variants@, j),
        decreases variants@.len() - i,
    {
        let v = &variants[i];
        let (ty, count) = match &v.fields {
            Fields::Unnamed(types) => (types[0].clone(), types.len()),
            _ => vstd::pervasive::unreached(),
        };
        let arm = if v.has_discriminant {
            VariantArm::Discriminant
        } else if count != 1 {
            VariantArm::NotSingle
        } else {
            VariantArm::Dispatch
        };
        list.push(VariantCode { ident: v.ident.clone(), ty, arm, same_error: i != 0 });
        i = i + 1;
    }
    proof {
        assert(list@.map_values(|v: VariantCode| v@) =~= Seq::new(
            variants@.len(),
            |i: int| variant_code(variants@, i),
        ));
    }
    let crate_path = match &input.crate_ {
        Some(path) => path.clone(),
        None => DEFAULT_CRATE.to_owned(),
    };
    let context_param = match &input.context {
        Some(context) => context.clone(),
        None => "Ctx".to_owned(),
    };
    Ok(
        EnumImpl {
            crate_path,
            context_param,
            add_ctx: input.context.is_none() && !find_param(&input.type_params, "Ctx"),
            ctx_lifetime_bound: input.context.is_none(),
            first_ty,
            variants: list,
        },
    )
}

} // verus!
