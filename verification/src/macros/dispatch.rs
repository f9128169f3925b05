//! Impls of `RequestDispatch`.
use vstd::prelude::*;
use crate::codegen::args::texts;
use crate::text::{ends_with, has_suffix, str_eq};

verus! {

/// An argument of a path segment.
#[derive(Debug)]
pub enum GenericArg {
    /// A type that is a path.
    PathType(String),
    /// Anything else.
    Other(String),
}

/// The arguments of a path segment.
#[derive(Debug)]
pub enum PathArgs {
    Absent,
    /// `Fn(A) -> B`.
    Parenthesized,
    /// `Trait<A, B>`.
    AngleBracketed(Vec<GenericArg>),
}

/// A segment of a path.
#[derive(Debug)]
pub struct PathSegment {
    pub ident: String,
    pub arguments: PathArgs,
}

/// The type of an argument of a method.
#[derive(Debug)]
pub enum ArgTy {
    /// A path, by its last segment.
    Path(Option<String>),
    Reference,
    Other,
}

/// An argument of a method.
#[derive(Debug)]
pub enum FnArg {
    /// `self`.
    Receiver,
    /// A pattern, which is None where it is no simple identifier, and a type.
    Typed { ident: Option<String>, ty: ArgTy },
}

/// An item of an impl.
#[derive(Debug)]
pub enum ImplItem {
    Method { ident: String, inputs: Vec<FnArg> },
    /// An associated type.
    Type { ident: String, ty: String },
    Other,
}

/// An impl.
#[derive(Debug)]
pub struct ItemImpl {
    /// The trait that is implemented, by the segments of its path.
    pub trait_: Option<Vec<PathSegment>>,
    pub items: Vec<ImplItem>,
}

/// A method of a dispatch impl.
#[derive(Debug)]
pub struct DispatchItem {
    pub ident: String,
    /// The names of the arguments that come from the message.
    pub args: Vec<String>,
}

/// What a [`DispatchItem`] says.
pub struct DispatchItemView {
    pub ident: Seq<char>,
    pub args: Seq<Seq<char>>,
}

impl View for DispatchItem {
    type V = DispatchItemView;

    open spec fn view(&self) -> DispatchItemView {
        DispatchItemView { ident: self.ident@, args: texts(self.args@) }
    }
}

/// What a dispatch impl has.
#[derive(Debug)]
pub struct DispatchImpl {
    pub items: Vec<DispatchItem>,
    /// The error type.
    pub error: String,
    /// The message type has a lifetime.
    pub has_lifetime: bool,
}

/// What a [`DispatchImpl`] says, while its error type may not be known.
pub struct DispatchView {
    pub items: Seq<DispatchItemView>,
    pub error: Option<Seq<char>>,
    pub has_lifetime: bool,
}

/// Why an impl is no dispatch impl.
#[derive(Clone, Copy, Debug, PartialEq, Eq, Structural)]
pub enum ParseError {
    NoTrait,
    EmptyPath,
    ParameterCount,
    MultipleReceivers,
    NoIdentifier,
    ArgumentType,
    SecondError,
    TypeItem,
    UnrecognizedItem,
    NoError,
}

impl ParseError {
    /// What the author of the impl is told.
    pub fn message(&self) -> (r: &'static str)
        ensures
            r@ == match *self {
                ParseError::NoTrait => "Must be an impl of a trait"@,
                ParseError::EmptyPath => "Trait path must not be empty"@,
                ParseError::ParameterCount => "Trait must have exactly one type parameter (the Ctx type)"@,
                ParseError::MultipleReceivers => "multiple receivers"@,
                ParseError::NoIdentifier => "Argument must be a simple identifier"@,
                ParseError::ArgumentType => "Unexpected argument type"@,
                ParseError::SecondError => "Only one Error type is allowed"@,
                ParseError::TypeItem => "Only Error and *Fut type items are allowed"@,
                ParseError::UnrecognizedItem => "Unrecognized item"@,
                ParseError::NoError => "No Error type found"@,
            },
    {
        match self {
            ParseError::NoTrait => "Must be an impl of a trait",
            ParseError::EmptyPath => "Trait path must not be empty",
            ParseError::ParameterCount => "Trait must have exactly one type parameter (the Ctx type)",
            ParseError::MultipleReceivers => "multiple receivers",
            ParseError::NoIdentifier => "Argument must be a simple identifier",
            ParseError::ArgumentType => "Unexpected argument type",
            ParseError::SecondError => "Only one Error type is allowed",
            ParseError::TypeItem => "Only Error and *Fut type items are allowed",
            ParseError::UnrecognizedItem => "Unrecognized item",
            ParseError::NoError => "No Error type found",
        }
    }
}

/// What is wrong with the trait of an impl: it has to have one parameter.
pub open spec fn trait_error(trait_: Option<Vec<PathSegment>>) -> Option<ParseError> {
    match trait_ {
        None => Some(ParseError::NoTrait),
        Some(segments) => if segments@.len() == 0 {
            Some(ParseError::EmptyPath)
        } else {
            match segments@.last().arguments {
                PathArgs::AngleBracketed(args) if args@.len() == 1 => None,
                _ => Some(ParseError::ParameterCount),
            }
        },
    }
}

/// How many arguments of a method do not come from the message: self, ctx and
/// object_id.
pub const LEADING_ARGS: usize = 3;

/// An argument of the type borrows from the message.
pub open spec fn borrows(ty: ArgTy) -> bool {
    match ty {
        ArgTy::Path(Some(last)) => last@ == "Str"@,
        ArgTy::Path(None) => false,
        ArgTy::Reference => true,
        ArgTy::Other => false,
    }
}

/// The names of the arguments up to number `n` that come from the message, and
/// whether one of them borrows from it.
pub open spec fn method_args(inputs: Seq<FnArg>, n: int) -> Result<(Seq<Seq<char>>, bool), ParseError>
    decreases n,
{
    if n <= LEADING_ARGS {
        Ok((Seq::empty(), false))
    } else {
        match method_args(inputs, n - 1) {
            Err(e) => Err(e),
            Ok((names, borrowed)) => match inputs[n - 1] {
                FnArg::Receiver => Err(ParseError::MultipleReceivers),
                FnArg::Typed { ident: None, .. } => Err(ParseError::NoIdentifier),
                FnArg::Typed { ident: Some(ident), ty } => if ty is Other {
                    Err(ParseError::ArgumentType)
                } else {
                    Ok((names.push(ident@), borrowed || borrows(ty)))
                },
            },
        }
    }
}

/// What an impl has, with one item more.
pub open spec fn with_item(v: DispatchView, item: ImplItem) -> Result<DispatchView, ParseError> {
    match item {
        ImplItem::Method { ident, inputs } => match method_args(inputs@, inputs@.len() as int) {
            Err(e) => Err(e),
            Ok((args, borrowed)) => Ok(
                DispatchView {
                    items: v.items.push(DispatchItemView { ident: ident@, args }),
                    has_lifetime: v.has_lifetime || borrowed,
                    ..v
                },
            ),
        },
        ImplItem::Type { ident, ty } => if ident@ == "Error"@ {
            if v.error is None {
                Ok(DispatchView { error: Some(ty@), ..v })
            } else {
                Err(ParseError::SecondError)
            }
        } else if has_suffix(ident@, "Fut"@) {
            Ok(v)
        } else {
            Err(ParseError::TypeItem)
        },
        ImplItem::Other => Err(ParseError::UnrecognizedItem),
    }
}

/// What an impl has, with its first `n` items.
pub open spec fn with_items(items: Seq<ImplItem>, n: int) -> Result<DispatchView, ParseError>
    decreases n,
{
    if n <= 0 {
        Ok(DispatchView { items: Seq::empty(), error: None, has_lifetime: false })
    } else {
        match with_items(items, n - 1) {
            Err(e) => Err(e),
            Ok(v) => with_item(v, items[n - 1]),
        }
    }
}

/// What a dispatch impl has.
pub open spec fn dispatch_impl(input: ItemImpl) -> Result<DispatchView, ParseError> {
    match trait_error(input.trait_) {
        Some(e) => Err(e),
        None => match with_items(input.items@, input.items@.len() as int) {
            Err(e) => Err(e),
            Ok(v) => if v.error is None {
                Err(ParseError::NoError)
            } else {
                Ok(v)
            },
        },
    }
}

proof fn lemma_args_fail(inputs: Seq<FnArg>, a: int, b: int)
    requires
        LEADING_ARGS < a <= b,
        method_args(inputs, a) is Err,
    ensures
        method_args(inputs, b) == method_args(inputs, a),
    decreases b - a,
{
    if a < b {
        lemma_args_fail(inputs, a, b - 1);
    }
}

proof fn lemma_items_fail(items: Seq<ImplItem>, a: int, b: int)
    requires
        0 < a <= b,
        with_items(items, a) is Err,
    ensures
        with_items(items, b) == with_items(items, a),
    decreases b - a,
{
    if a < b {
        lemma_items_fail(items, a, b - 1);
    }
}

/// The names of the arguments of a method that come from the message, and whether
/// one of them borrows from it.
fn parse_args(inputs: &Vec<FnArg>) -> (r: Result<(Vec<String>, bool), ParseError>)
    ensures
        match r {
            Ok((names, borrowed)) => method_args(inputs@, inputs@.len() as int) == Ok::<
                (Seq<Seq<char>>, bool),
                ParseError,
            >((texts(names@), borrowed)),
            Err(e) => method_args(inputs@, inputs@.len() as int) == Err::<(Seq<Seq<char>>, bool), ParseError>(e),
        },
{
    let mut names: Vec<String> = Vec::new();
    let mut borrowed = false;
    // Ignore the first 3 arguments: self, ctx, object_id.
    let mut i: usize = LEADING_ARGS;
    proof {
        assert(texts(names@) =~= Seq::empty());
    }
    while i < inputs.len()
        invariant
            i >= LEADING_ARGS,
            i <= inputs@.len() || i == LEADING_ARGS,
            method_args(inputs@, i as int) == Ok::<(Seq<Seq<char>>, bool), ParseError>((texts(names@), borrowed)),
        decreases inputs@.len() - i,
    {
        let ghost before = texts(names@);
        let failed = match &inputs[i] {
            FnArg::Receiver => Some(ParseError::MultipleReceivers),
            FnArg::Typed { ident: None, .. } => Some(ParseError::NoIdentifier),
            FnArg::Typed { ident: Some(ident), ty } => {
                match ty {
                    ArgTy::Path(Some(last)) => {
                        if str_eq(last.as_str(), "Str") {
                            borrowed = true;
                        }
                        names.push(ident.clone());
                        None
                    },
                    ArgTy::Path(None) => {
                        names.push(ident.clone());
                        None
                    },
                    ArgTy::Reference => {
                        borrowed = true;
                        names.push(ident.clone());
                        None
                    },
                    ArgTy::Other => Some(ParseError::ArgumentType),
                }
            },
        };
        if let Some(e) = failed {
            proof {
                assert(method_args(inputs@, i + 1) == Err::<(Seq<Seq<char>>, bool), ParseError>(e));
                lemma_args_fail(inputs@, i + 1, inputs@.len() as int);
            }
            return Err(e);
        }
        proof {
            assert(texts(names@) =~= before.push(names@.last()@));
        }
        i = i + 1;
    }
    Ok((names, borrowed))
}

/// What is wrong with the trait of an impl.
fn check_trait(trait_: &Option<Vec<PathSegment>>) -> (r: Option<ParseError>)
    ensures
        r == trait_error(*trait_),
{
    match trait_ {
        None => Some(ParseError::NoTrait),
        Some(segments) => {
            if segments.len() == 0 {
                return Some(ParseError::EmptyPath);
            }
            match &segments[segments.len() - 1].arguments {
                PathArgs::AngleBracketed(args) => if args.len() == 1 {
                    None
                } else {
                    Some(ParseError::ParameterCount)
                },
                _ => Some(ParseError::ParameterCount),
            }
        },
    }
}

/// What the items say.
pub open spec fn view_items(items: Seq<DispatchItem>) -> Seq<DispatchItemView> {
    items.map_values(|i: DispatchItem| i@)
}

/// An error type, where it is known.
pub open spec fn view_error(error: Option<String>) -> Option<Seq<char>> {
    match error {
        Some(ty) => Some(ty@),
        None => None,
    }
}

impl DispatchImpl {
    /// Finds out what a dispatch impl has: its methods with their arguments, and its
    /// error type. It may have no other items than these and types that end with
    /// `Fut`.
    pub fn parse(input: &ItemImpl) -> (r: Result<DispatchImpl, ParseError>)
        ensures
            match r {
                Ok(parsed) => dispatch_impl(*input) == Ok::<DispatchView, ParseError>(
                    DispatchView {
                        items: view_items(parsed.items@),
                        error: Some(parsed.error@),
                        has_lifetime: parsed.has_lifetime,
                    },
                ),
                Err(e) => dispatch_impl(*input) == Err::<DispatchView, ParseError>(e),
            },
    {
        if let Some(e) = check_trait(&input.trait_) {
            return Err(e);
        }
        let mut items: Vec<DispatchItem> = Vec::new();
        let mut error: Option<String> = None;
        let mut has_lifetime = false;
        let mut i: usize = 0;
        proof {
            assert(view_items(items@) =~= Seq::empty());
        }
        while i < input.items.len()
            invariant
                0 <= i <= input.items@.len(),
                with_items(input.items@, i as int) == Ok::<DispatchView, ParseError>(
                    DispatchView { items: view_items(items@), error: view_error(error), has_lifetime },
                ),
                trait_error(input.trait_) is None,
            decreases input.items@.len() - i,
        {
            let ghost before = view_items(items@);
            let failed = match &input.items[i] {
                ImplItem::Method { ident, inputs } => match parse_args(inputs) {
                    Ok((args, borrowed)) => {
                        if borrowed {
                            has_lifetime = true;
                        }
                        items.push(DispatchItem { ident: ident.clone(), args });
                        proof {
                            assert(view_items(items@) =~= before.push(items@.last()@));
                        }
                        None
                    },
                    Err(e) => Some(e),
                },
                ImplItem::Type { ident, ty } => if str_eq(ident.as_str(), "Error") {
                    if error.is_none() {
                        error = Some(ty.clone());
                        None
                    } else {
                        Some(ParseError::SecondError)
                    }
                } else if !ends_with(ident.as_str(), "Fut") {
                    Some(ParseError::TypeItem)
                } else {
                    None
                },
                ImplItem::Other => Some(ParseError::UnrecognizedItem),
            };
            if let Some(e) = failed {
                proof {
                    assert(with_items(input.items@, i + 1) == Err::<DispatchView, ParseError>(e));
                    lemma_items_fail(input.items@, i + 1, input.items@.len() as int);
                }
                return Err(e);
            }
            i = i + 1;
        }
        match error {
            Some(error) => Ok(DispatchImpl { items, error, has_lifetime }),
            None => Err(ParseError::NoError),
        }
    }
}

} // verus!
