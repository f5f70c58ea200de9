//! The error taxonomy of the codec, for both directions.

use vstd::prelude::*;
use crate::marker::Marker;
use crate::read::BytesReadError;

verus! {

/// `core::str::Utf8Error`, carried through unchanged when string bytes are
/// not valid UTF-8; the codec never looks inside it.
#[verifier::external_type_specification]
#[verifier::external_body]
pub struct ExUtf8Error(core::str::Utf8Error);

/// A failure to read a whole MessagePack value.
#[derive(Debug)]
pub enum ValueReadError {
    /// Reading the one-byte marker failed.
    InvalidMarkerRead(BytesReadError),
    /// Reading the payload behind the marker failed.
    InvalidDataRead(BytesReadError),
    /// The marker does not introduce the kind of value that was asked for.
    TypeMismatch(Marker),
}

/// An error that can occur while decoding MessagePack data.
#[derive(Debug)]
pub enum Error {
    /// Failed to read a MessagePack value.
    InvalidValueRead(ValueReadError),
    /// A mismatch occurred between the decoded and the expected value types.
    TypeMismatch(Marker),
    /// A numeric cast failed due to an out-of-range error.
    OutOfRange,
    /// A decoded container did not have the expected length.
    LengthMismatch(u32),
    /// An otherwise uncategorized error occurred.
    Uncategorized(&'static str),
    /// A general error occurred while deserializing the expected type.
    Syntax(String),
    /// An encoded string could not be parsed as UTF-8.
    Utf8Error(core::str::Utf8Error),
    /// The depth limit was exceeded.
    DepthLimitExceeded,
}

/// An error that can occur while encoding MessagePack data.
#[derive(Debug)]
pub enum EncodeError {
    /// The underlying writer failed.
    InvalidValueWrite,
    /// A payload or container length does not fit a 32-bit length header.
    LengthOverflow(usize),
    /// A general error occurred while serializing.
    Syntax(String),
}

} // verus!
