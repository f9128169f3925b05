//! What a wayland server keeps of its clients.
pub mod broadcast;
pub mod error;
pub mod events;
pub mod globals;
pub mod handler;
pub mod laws;
pub mod listen;
pub mod maps;
pub mod objects;
pub mod provide_any;
pub mod ring;
pub mod serial;
pub mod shared;
pub mod signal;
pub mod store;
