//! What the macros for wayland objects make of the code they are attached to.
//!
//! Parts of the code that are only carried over, such as types, are kept as text.
pub mod dispatch;
pub mod laws;
pub mod object;
