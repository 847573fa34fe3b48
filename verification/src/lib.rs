//! Callback-based streaming JSON reader.
//!
//! A [`StreamReader`] walks the body of one JSON object as it comes from the parser and
//! hands each field to the handler that was set for the field's name; fields without a
//! handler of their own go to a default handler. Handlers share the parser as their one
//! cursor, and each of them reads exactly the value it was given. [`read_value`],
//! [`read_array`] and [`read_object`] build a value in memory.
//!
//! The parser is `rustc_serialize::json::Parser` over the characters of a string. What
//! is assumed of it is stated in [`source`]; all else is proved from that.

pub mod document;
pub mod error;
pub mod event;
pub mod grammar;
pub mod handler;
pub mod laws;
pub mod materialize;
pub mod reader;
pub mod source;
pub mod value;

pub use error::{ReadError, Violation};
pub use event::Event;
pub use handler::{
    array_handler, copy_handler, dummy_handler, read_array, ArrayHandler, CopyHandler,
    DummyHandler, Handler, Visitor,
};
pub use materialize::{
    read_array_within, read_object_within, read_value, read_value_within, DEFAULT_MAX_DEPTH,
};
pub use reader::{read_object, StreamReader};
pub use value::{Object, Value};
