//! A codec for the self-describing `gob` wire format.
//!
//! A stream is a sequence of messages. A message with a negative identifier
//! defines a type; one with a positive identifier holds a value of the type
//! that the identifier was defined as. Values are read into a dynamic
//! [`Value`], or into a record by a [`Binding`].
//!
//! The modules, from the bytes up:
//!
//! - [`wire`], [`grammar`] and [`layout`] say what the format is: the bit
//!   codec, how messages, descriptors and values are read, and how they are
//!   written. They hold no code that runs.
//! - [`encode`] and [`framer`] are the bit codec and the framing at work;
//!   [`decode`] joins the framer with the [`schema`] registry.
//! - [`descriptor`], [`dynamic`] and [`stream`] read type definitions,
//!   values and whole messages; [`writer`] writes them.
//! - [`value`], [`object`], [`types`], [`convert`] and [`binding`] are the
//!   data: dynamic values, type descriptors, and records.
//! - [`laws`], [`order`], [`roundtrip`] and [`truncation`] prove what holds
//!   of all of this: that the registry only grows and does not depend on
//!   what follows, that values are totally ordered and read in order, that
//!   what is written is read back, and that a message cut short is not
//!   read.

pub mod binding;
pub mod convert;
pub mod decode;
pub mod descriptor;
pub mod dynamic;
pub mod encode;
pub mod error;
pub mod framer;
pub mod grammar;
pub mod laws;
pub mod layout;
pub mod object;
pub mod order;
pub mod roundtrip;
pub mod schema;
pub mod stream;
pub mod truncation;
pub mod types;
pub mod value;
pub mod wire;
pub mod writer;

pub use binding::{Binding, Field};
pub use decode::Decoder;
pub use encode::{encode_as_interface, Encoder, GobEncodable};
pub use error::GobError;
pub use object::{GobType, Type};
pub use stream::GobDecodable;
pub use value::Value;
pub use writer::GobWriter;
