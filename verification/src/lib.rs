//! A toolbox for wayland compositors.
pub mod codegen;
pub mod io;
pub mod macros;
pub mod objects;
pub mod server;
pub mod shell;
pub mod spec_parser;
pub mod text;
pub mod types;
pub mod utils;
pub mod wire;
