//! What code is generated for a wayland protocol.
use vstd::prelude::*;

pub mod args;
pub mod docs;
pub mod enums;
pub mod html_docs;
pub mod infos;
pub mod laws;
pub mod maps;
pub mod meaning;
pub mod messages;
pub mod names;
pub mod protocol;
pub mod sound;

verus! {

/// Why no code can be generated for a protocol.
#[derive(Debug)]
pub enum Error {
    /// Destructor is not a valid argument type.
    InvalidArgumentType,
    /// Enum refers to an unknown interface.
    UnknownInterface(String),
    /// Unknown type.
    UnknownEnum(String),
    /// Cannot decide type of enum.
    BadEnumType(String),
}

/// What an [`Error`] says.
pub enum ErrorView {
    InvalidArgumentType,
    UnknownInterface(Seq<char>),
    UnknownEnum(Seq<char>),
    BadEnumType(Seq<char>),
}

impl View for Error {
    type V = ErrorView;

    open spec fn view(&self) -> ErrorView {
        match *self {
            Error::InvalidArgumentType => ErrorView::InvalidArgumentType,
            Error::UnknownInterface(name) => ErrorView::UnknownInterface(name@),
            Error::UnknownEnum(name) => ErrorView::UnknownEnum(name@),
            Error::BadEnumType(name) => ErrorView::BadEnumType(name@),
        }
    }
}

} // verus!
