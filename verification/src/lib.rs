//! A MessagePack codec core: markers, wire-level encoding and decoding of a
//! byte-oriented data model, configurable struct/variant framing, and helpers
//! for strings of possibly invalid UTF-8.
//!
//! Every multi-byte quantity on the wire is big-endian, and every value begins
//! with a one-byte marker that fixes the shape of what follows.

use vstd::prelude::*;

pub mod config;
pub mod decode;
pub mod encode;
pub mod error;
pub mod laws;
pub mod marker;
pub mod raw;
pub mod read;
pub mod value;
pub mod wire;

verus! {

/// Name of the reserved newtype struct that carries a MessagePack ext value
/// (a signed 8-bit tag plus an opaque byte payload) through the data model.
pub const MSGPACK_EXT_STRUCT_NAME: &'static str = "_ExtStruct";

} // verus!
