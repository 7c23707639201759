//! A framework for length-framed binary network protocols: a variable-length
//! integer codec, a recursive tagged-tree ("NBT") codec with resource
//! accounting, a component codec model for composing packet formats, and a
//! frame pipeline that adds size prefixes, compression and stream encryption.

pub mod buffer;
pub mod buffered_reader;
pub mod encryption;
pub mod error;
pub mod extension;
pub mod frame;
pub mod nbt;
pub mod packet;
pub mod pipeline;
pub mod reader;
pub mod varnum;
