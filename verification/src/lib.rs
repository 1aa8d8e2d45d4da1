//! A MessagePack implementation: a model of the values MessagePack carries,
//! a writer and a reader of its wire format, and the messages of MessagePack
//! RPC, each proved against the model.
//!
//! - [`value`]: values, their model, equality, copies, accessors and
//!   conversions;
//! - [`byte`]: the leading bytes of the wire format;
//! - [`bigendian`]: fixed-width big-endian numbers;
//! - [`encode`]: what writing a value emits;
//! - [`decode`]: what reading from a byte sequence gives;
//! - [`laws`]: what reading gives back of what writing wrote;
//! - [`layout`]: the wire format byte by byte;
//! - [`rpc`]: requests and responses of MessagePack RPC;
//! - [`text`]: the text that describes a value in error messages;
//! - [`errors`]: the errors of writing and reading.
pub mod bigendian;
pub mod byte;
pub mod decode;
pub mod encode;
pub mod errors;
pub mod laws;
pub mod layout;
pub mod rpc;
pub mod text;
pub mod value;
