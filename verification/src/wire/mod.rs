//! The wire format of wayland messages.
pub mod endian;
pub mod message;
pub mod pop;
