//! Envelopes for MessagePack strings whose bytes may or may not be valid
//! UTF-8: they keep the raw bytes either way, so such strings survive a
//! round trip, and they always go back on the wire as a string value.

use vstd::prelude::*;
use vstd::slice::slice_to_vec;
use vstd::string::StringSliceAdditionalSpecFns;
use vstd::utf8::{valid_utf8, encode_utf8};

verus! {

/// Relies on `core::str::from_utf8`: it succeeds exactly on valid UTF-8,
/// and the returned string views the same bytes.
#[verifier::external_body]
fn str_from_utf8(v: &[u8]) -> (r: Result<&str, core::str::Utf8Error>)
    ensures
        r is Ok <==> valid_utf8(v@),
        r matches Ok(s) ==> s.spec_bytes() == v@,
{
    core::str::from_utf8(v)
}

/// Relies on `String::from_utf8`: it succeeds exactly on valid UTF-8,
/// wrapping the given bytes; on failure, `FromUtf8Error::into_bytes` hands
/// the same bytes back.
#[verifier::external_body]
fn string_from_utf8(v: Vec<u8>) -> (r: Result<String, (Vec<u8>, core::str::Utf8Error)>)
    ensures
        r is Ok <==> valid_utf8(v@),
        r matches Ok(s) ==> encode_utf8(s@) == v@,
        r matches Err(p) ==> p.0@ == v@,
{
    match String::from_utf8(v) {
        Ok(s) => Ok(s),
        Err(e) => {
            let u = e.utf8_error();
            Err((e.into_bytes(), u))
        },
    }
}

/// Relies on `String::into_bytes`: it returns the byte representation of
/// the string.
pub assume_specification[ String::into_bytes ](s: String) -> (v: Vec<u8>)
    ensures
        v@ == encode_utf8(s@),
;

/// Helper that both encodes and decodes strings no matter whether they
/// contain valid or invalid UTF-8, keeping the payload bytes either way.
#[derive(Debug)]
pub enum Raw<'a> {
    /// The payload borrows from the decoded input.
    Borrowed { s: Result<&'a str, (&'a [u8], core::str::Utf8Error)> },
    /// The payload is owned.
    Owned { s: Result<String, (Vec<u8>, core::str::Utf8Error)> },
}

impl<'a> Raw<'a> {
    /// The payload bytes, valid UTF-8 or not.
    pub open spec fn spec_bytes(&self) -> Seq<u8> {
        match self {
            Raw::Borrowed { s } => match s {
                Ok(st) => st.spec_bytes(),
                Err(p) => p.0@,
            },
            Raw::Owned { s } => match s {
                Ok(st) => encode_utf8(st@),
                Err(p) => p.0@,
            },
        }
    }

    /// Whether the payload is valid UTF-8 text.
    pub open spec fn spec_is_str(&self) -> bool {
        match self {
            Raw::Borrowed { s } => s is Ok,
            Raw::Owned { s } => s is Ok,
        }
    }

    /// Constructs a new `Raw` from the UTF-8 string, borrowing it.
    pub fn new_borrowed(v: &'a str) -> (r: Self)
        ensures
            r.spec_is_str(),
            r.spec_bytes() == v.spec_bytes(),
    {
        Raw::Borrowed { s: Ok(v) }
    }

    /// Constructs a new `Raw` from the UTF-8 string.
    pub fn new(v: String) -> (r: Self)
        ensures
            r.spec_is_str(),
            r.spec_bytes() == encode_utf8(v@),
    {
        Raw::Owned { s: Ok(v) }
    }

    /// Constructs a new `Raw` from bytes, keeping them either as text or,
    /// when they are not valid UTF-8, raw together with the error.
    pub fn from_utf8(v: Vec<u8>) -> (r: Self)
        ensures
            r.spec_bytes() == v@,
            r.spec_is_str() == valid_utf8(v@),
    {
        match string_from_utf8(v) {
            Ok(s) => Raw::Owned { s: Ok(s) },
            Err(p) => Raw::Owned { s: Err(p) },
        }
    }

    /// Returns `true` if the raw is valid UTF-8.
    pub fn is_str(&self) -> (r: bool)
        ensures
            r == self.spec_is_str(),
    {
        self.as_str().is_some()
    }

    /// Returns `true` if the raw contains an invalid UTF-8 sequence.
    pub fn is_err(&self) -> (r: bool)
        ensures
            r == !self.spec_is_str(),
    {
        self.as_str().is_none()
    }

    /// Returns the string reference if the raw is valid UTF-8, or else
    /// `None`.
    pub fn as_str(&self) -> (r: Option<&str>)
        ensures
            self.spec_is_str() <==> r is Some,
            r matches Some(s) ==> s.spec_bytes() == self.spec_bytes(),
    {
        match self {
            Raw::Borrowed { s: Ok(s) } => Some(s),
            Raw::Owned { s: Ok(s) } => Some(s.as_str()),
            _ => None,
        }
    }

    /// Returns the underlying UTF-8 error if the raw contains an invalid
    /// UTF-8 sequence, or else `None`.
    pub fn as_err(&self) -> (r: Option<&core::str::Utf8Error>)
        ensures
            !self.spec_is_str() <==> r is Some,
    {
        match self {
            Raw::Borrowed { s: Err((_, err)) } => Some(err),
            Raw::Owned { s: Err((_, err)) } => Some(err),
            _ => None,
        }
    }

    /// Returns a byte slice of this raw's contents.
    pub fn as_bytes(&self) -> (r: &[u8])
        ensures
            r@ == self.spec_bytes(),
    {
        match self {
            Raw::Borrowed { s: Err(err) } => err.0,
            Raw::Borrowed { s: Ok(s) } => s.as_bytes(),
            Raw::Owned { s: Err(err) } => err.0.as_slice(),
            Raw::Owned { s: Ok(s) } => s.as_str().as_bytes(),
        }
    }

    /// Consumes this object, yielding the string if the raw is valid UTF-8,
    /// or else `None`.
    pub fn into_str(self) -> (r: Option<String>)
        ensures
            self.spec_is_str() <==> r is Some,
            r matches Some(s) ==> encode_utf8(s@) == self.spec_bytes(),
    {
        match self {
            Raw::Owned { s: Ok(s) } => Some(s),
            Raw::Borrowed { s: Ok(s) } => Some(s.to_owned()),
            _ => None,
        }
    }

    /// Converts a `Raw` into a byte vector.
    pub fn into_bytes(self) -> (r: Vec<u8>)
        ensures
            r@ == self.spec_bytes(),
    {
        match self {
            Raw::Borrowed { s: Err(err) } => slice_to_vec(err.0),
            Raw::Borrowed { s: Ok(s) } => slice_to_vec(s.as_bytes()),
            Raw::Owned { s: Err(err) } => err.0,
            Raw::Owned { s: Ok(s) } => s.into_bytes(),
        }
    }
}

/// Borrowed-only form of [`Raw`]: a string payload pointing into the
/// decoded input, valid UTF-8 or not.
#[derive(Clone, Copy, Debug)]
pub struct RawRef<'a> {
    s: Result<&'a str, (&'a [u8], core::str::Utf8Error)>,
}

impl<'a> RawRef<'a> {
    /// The payload bytes, valid UTF-8 or not.
    pub closed spec fn spec_bytes(&self) -> Seq<u8> {
        match self.s {
            Ok(st) => st.spec_bytes(),
            Err(p) => p.0@,
        }
    }

    /// Whether the payload is valid UTF-8 text.
    pub closed spec fn spec_is_str(&self) -> bool {
        self.s is Ok
    }

    /// Constructs a new `RawRef` from the UTF-8 string.
    pub fn new(v: &'a str) -> (r: Self)
        ensures
            r.spec_is_str(),
            r.spec_bytes() == v.spec_bytes(),
    {
        RawRef { s: Ok(v) }
    }

    /// Constructs a new `RawRef` from bytes, keeping them either as text
    /// or, when they are not valid UTF-8, raw together with the error.
    pub fn from_utf8(v: &'a [u8]) -> (r: Self)
        ensures
            r.spec_bytes() == v@,
            r.spec_is_str() == valid_utf8(v@),
    {
        match str_from_utf8(v) {
            Ok(s) => RawRef { s: Ok(s) },
            Err(err) => RawRef { s: Err((v, err)) },
        }
    }

    /// Returns `true` if the raw is valid UTF-8.
    pub fn is_str(&self) -> (r: bool)
        ensures
            r == self.spec_is_str(),
    {
        self.s.is_ok()
    }

    /// Returns `true` if the raw contains an invalid UTF-8 sequence.
    pub fn is_err(&self) -> (r: bool)
        ensures
            r == !self.spec_is_str(),
    {
        self.s.is_err()
    }

    /// Returns the string reference if the raw is valid UTF-8, or else
    /// `None`.
    pub fn as_str(&self) -> (r: Option<&str>)
        ensures
            self.spec_is_str() <==> r is Some,
            r matches Some(s) ==> s.spec_bytes() == self.spec_bytes(),
    {
        match self.s {
            Ok(s) => Some(s),
            Err(..) => None,
        }
    }

    /// Returns the underlying UTF-8 error if the raw contains an invalid
    /// UTF-8 sequence, or else `None`.
    pub fn as_err(&self) -> (r: Option<&core::str::Utf8Error>)
        ensures
            !self.spec_is_str() <==> r is Some,
    {
        match self.s {
            Ok(..) => None,
            Err((_, ref err)) => Some(err),
        }
    }

    /// Returns a byte slice of this raw's contents.
    pub fn as_bytes(&self) -> (r: &[u8])
        ensures
            r@ == self.spec_bytes(),
    {
        match self.s {
            Ok(s) => s.as_bytes(),
            Err((bytes, _)) => bytes,
        }
    }
}

} // verus!
