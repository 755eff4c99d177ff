//! A zero-copy MessagePack codec: a decoder that turns a byte sequence into
//! flat events borrowing from the input, and encoding primitives that write
//! the format's size-tiered headers into a byte sink.
pub mod buffer;
pub mod bytes;
pub mod encode;
pub mod errors;
pub mod fixed;
pub mod laws;
pub mod marker;
pub mod reader;
pub mod writer;
