//! Names in generated code, from the words of a protocol file.
use heck::{ToPascalCase, ToShoutySnekCase};
use vstd::prelude::*;

verus! {

/// What [`heck`] makes of a name in upper camel case.
pub uninterp spec fn pascal_case(name: Seq<char>) -> Seq<char>;

/// What [`heck`] makes of a name in upper case with underscores.
pub uninterp spec fn shouty_case(name: Seq<char>) -> Seq<char>;

/// `heck::ToPascalCase::to_pascal_case`: the words of a name, each with an upper
/// case letter first, without anything between them. The result depends on the
/// name alone.
#[verifier::external_body]
pub(crate) fn to_pascal_case(name: &str) -> (r: String)
    ensures
        r@ == pascal_case(name@),
{
    name.to_pascal_case()
}

/// `heck::ToShoutySnekCase::TO_SHOUTY_SNEK_CASE`: the words of a name in upper
/// case, with underscores between them. The result depends on the name alone.
#[verifier::external_body]
pub(crate) fn to_shouty_case(name: &str) -> (r: String)
    ensures
        r@ == shouty_case(name@),
{
    name.TO_SHOUTY_SNEK_CASE()
}

} // verus!
