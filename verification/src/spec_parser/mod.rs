//! Wayland protocol files.
pub mod laws;
pub mod parse;
pub mod protocol;
pub mod xml;
