//! A small embeddable scripting engine for a Lua-like language subset.
//!
//! Scripts are parsed into a syntax tree, then evaluated against a
//! [`State`] made of a global variable table and a stack of local tables.
//! The host observes effects only through the native callbacks it exposes
//! as a host closure.
pub mod value;
pub mod table;
pub mod syntax;
pub mod lexer;
pub mod parser;
pub mod laws;
pub mod engine;

pub use value::{Function, Kind, Number, Value};
pub use table::Table;
pub use engine::{Error, Script, State};
