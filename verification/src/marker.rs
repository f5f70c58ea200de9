//! MessagePack format markers: the one-byte tag that classifies every value.

use vstd::prelude::*;

verus! {

/// A one-byte format marker. The `Fix*` variants pack a small value or length
/// into the marker byte itself.
#[derive(Clone, Copy, Debug, PartialEq, Eq, Structural)]
pub enum Marker {
    /// `0x00..=0x7f`: a positive fixint, the payload is the value itself.
    FixPos(u8),
    /// `0x80..=0x8f`: a fixmap, the payload is the number of entries.
    FixMap(u8),
    /// `0x90..=0x9f`: a fixarray, the payload is the number of elements.
    FixArray(u8),
    /// `0xa0..=0xbf`: a fixstr, the payload is the byte length.
    FixStr(u8),
    /// `0xc0`
    Null,
    /// `0xc1`: never used by the MessagePack spec; always rejected.
    Reserved,
    /// `0xc2`
    False,
    /// `0xc3`
    True,
    /// `0xc4`
    Bin8,
    /// `0xc5`
    Bin16,
    /// `0xc6`
    Bin32,
    /// `0xc7`
    Ext8,
    /// `0xc8`
    Ext16,
    /// `0xc9`
    Ext32,
    /// `0xca`
    F32,
    /// `0xcb`
    F64,
    /// `0xcc`
    U8,
    /// `0xcd`
    U16,
    /// `0xce`
    U32,
    /// `0xcf`
    U64,
    /// `0xd0`
    I8,
    /// `0xd1`
    I16,
    /// `0xd2`
    I32,
    /// `0xd3`
    I64,
    /// `0xd4`
    FixExt1,
    /// `0xd5`
    FixExt2,
    /// `0xd6`
    FixExt4,
    /// `0xd7`
    FixExt8,
    /// `0xd8`
    FixExt16,
    /// `0xd9`
    Str8,
    /// `0xda`
    Str16,
    /// `0xdb`
    Str32,
    /// `0xdc`
    Array16,
    /// `0xdd`
    Array32,
    /// `0xde`
    Map16,
    /// `0xdf`
    Map32,
    /// `0xe0..=0xff`: a negative fixint, the payload is the value (`-32..=-1`).
    FixNeg(i8),
}

/// The marker a byte classifies as. Total: every byte maps to exactly one marker.
pub open spec fn marker_of_byte(b: u8) -> Marker {
    if b <= 0x7f {
        Marker::FixPos(b)
    } else if b <= 0x8f {
        Marker::FixMap((b - 0x80) as u8)
    } else if b <= 0x9f {
        Marker::FixArray((b - 0x90) as u8)
    } else if b <= 0xbf {
        Marker::FixStr((b - 0xa0) as u8)
    } else if b == 0xc0 {
        Marker::Null
    } else if b == 0xc1 {
        Marker::Reserved
    } else if b == 0xc2 {
        Marker::False
    } else if b == 0xc3 {
        Marker::True
    } else if b == 0xc4 {
        Marker::Bin8
    } else if b == 0xc5 {
        Marker::Bin16
    } else if b == 0xc6 {
        Marker::Bin32
    } else if b == 0xc7 {
        Marker::Ext8
    } else if b == 0xc8 {
        Marker::Ext16
    } else if b == 0xc9 {
        Marker::Ext32
    } else if b == 0xca {
        Marker::F32
    } else if b == 0xcb {
        Marker::F64
    } else if b == 0xcc {
        Marker::U8
    } else if b == 0xcd {
        Marker::U16
    } else if b == 0xce {
        Marker::U32
    } else if b == 0xcf {
        Marker::U64
    } else if b == 0xd0 {
        Marker::I8
    } else if b == 0xd1 {
        Marker::I16
    } else if b == 0xd2 {
        Marker::I32
    } else if b == 0xd3 {
        Marker::I64
    } else if b == 0xd4 {
        Marker::FixExt1
    } else if b == 0xd5 {
        Marker::FixExt2
    } else if b == 0xd6 {
        Marker::FixExt4
    } else if b == 0xd7 {
        Marker::FixExt8
    } else if b == 0xd8 {
        Marker::FixExt16
    } else if b == 0xd9 {
        Marker::Str8
    } else if b == 0xda {
        Marker::Str16
    } else if b == 0xdb {
        Marker::Str32
    } else if b == 0xdc {
        Marker::Array16
    } else if b == 0xdd {
        Marker::Array32
    } else if b == 0xde {
        Marker::Map16
    } else if b == 0xdf {
        Marker::Map32
    } else {
        Marker::FixNeg((b - 256) as i8)
    }
}

/// Whether a marker's packed payload is within the range its byte form can carry.
/// Every marker produced by `marker_of_byte` is well formed.
pub open spec fn wf_marker(m: Marker) -> bool {
    match m {
        Marker::FixPos(v) => v < 0x80,
        Marker::FixMap(n) => n < 0x10,
        Marker::FixArray(n) => n < 0x10,
        Marker::FixStr(n) => n < 0x20,
        Marker::FixNeg(v) => -32 <= v && v < 0,
        _ => true,
    }
}

/// The byte form of a marker. Total: out-of-range packed payloads are reduced
/// into range, so that `byte_of_marker` and `marker_of_byte` are mutually
/// inverse exactly on well-formed markers.
pub open spec fn byte_of_marker(m: Marker) -> u8 {
    match m {
        Marker::FixPos(v) => (v % 0x80) as u8,
        Marker::FixMap(n) => (0x80 + n % 0x10) as u8,
        Marker::FixArray(n) => (0x90 + n % 0x10) as u8,
        Marker::FixStr(n) => (0xa0 + n % 0x20) as u8,
        Marker::Null => 0xc0,
        Marker::Reserved => 0xc1,
        Marker::False => 0xc2,
        Marker::True => 0xc3,
        Marker::Bin8 => 0xc4,
        Marker::Bin16 => 0xc5,
        Marker::Bin32 => 0xc6,
        Marker::Ext8 => 0xc7,
        Marker::Ext16 => 0xc8,
        Marker::Ext32 => 0xc9,
        Marker::F32 => 0xca,
        Marker::F64 => 0xcb,
        Marker::U8 => 0xcc,
        Marker::U16 => 0xcd,
        Marker::U32 => 0xce,
        Marker::U64 => 0xcf,
        Marker::I8 => 0xd0,
        Marker::I16 => 0xd1,
        Marker::I32 => 0xd2,
        Marker::I64 => 0xd3,
        Marker::FixExt1 => 0xd4,
        Marker::FixExt2 => 0xd5,
        Marker::FixExt4 => 0xd6,
        Marker::FixExt8 => 0xd7,
        Marker::FixExt16 => 0xd8,
        Marker::Str8 => 0xd9,
        Marker::Str16 => 0xda,
        Marker::Str32 => 0xdb,
        Marker::Array16 => 0xdc,
        Marker::Array32 => 0xdd,
        Marker::Map16 => 0xde,
        Marker::Map32 => 0xdf,
        Marker::FixNeg(v) => if -32 <= v && v < 0 {
            (v + 256) as u8
        } else {
            0xe0
        },
    }
}

impl Marker {
    /// Classifies a single byte as a marker.
    pub fn from_u8(b: u8) -> (m: Marker)
        ensures
            m == marker_of_byte(b),
            wf_marker(m),
    {
        if b <= 0x7f {
            Marker::FixPos(b)
        } else if b <= 0x8f {
            Marker::FixMap(b - 0x80)
        } else if b <= 0x9f {
            Marker::FixArray(b - 0x90)
        } else if b <= 0xbf {
            Marker::FixStr(b - 0xa0)
        } else if b == 0xc0 {
            Marker::Null
        } else if b == 0xc1 {
            Marker::Reserved
        } else if b == 0xc2 {
            Marker::False
        } else if b == 0xc3 {
            Marker::True
        } else if b == 0xc4 {
            Marker::Bin8
        } else if b == 0xc5 {
            Marker::Bin16
        } else if b == 0xc6 {
            Marker::Bin32
        } else if b == 0xc7 {
            Marker::Ext8
        } else if b == 0xc8 {
            Marker::Ext16
        } else if b == 0xc9 {
            Marker::Ext32
        } else if b == 0xca {
            Marker::F32
        } else if b == 0xcb {
            Marker::F64
        } else if b == 0xcc {
            Marker::U8
        } else if b == 0xcd {
            Marker::U16
        } else if b == 0xce {
            Marker::U32
        } else if b == 0xcf {
            Marker::U64
        } else if b == 0xd0 {
            Marker::I8
        } else if b == 0xd1 {
            Marker::I16
        } else if b == 0xd2 {
            Marker::I32
        } else if b == 0xd3 {
            Marker::I64
        } else if b == 0xd4 {
            Marker::FixExt1
        } else if b == 0xd5 {
            Marker::FixExt2
        } else if b == 0xd6 {
            Marker::FixExt4
        } else if b == 0xd7 {
            Marker::FixExt8
        } else if b == 0xd8 {
            Marker::FixExt16
        } else if b == 0xd9 {
            Marker::Str8
        } else if b == 0xda {
            Marker::Str16
        } else if b == 0xdb {
            Marker::Str32
        } else if b == 0xdc {
            Marker::Array16
        } else if b == 0xdd {
            Marker::Array32
        } else if b == 0xde {
            Marker::Map16
        } else if b == 0xdf {
            Marker::Map32
        } else {
            Marker::FixNeg((b as i16 - 256) as i8)
        }
    }

    /// The single-byte form of this marker.
    pub fn to_u8(&self) -> (b: u8)
        ensures
            b == byte_of_marker(*self),
    {
        match *self {
            Marker::FixPos(v) => v % 0x80,
            Marker::FixMap(n) => 0x80 + n % 0x10,
            Marker::FixArray(n) => 0x90 + n % 0x10,
            Marker::FixStr(n) => 0xa0 + n % 0x20,
            Marker::Null => 0xc0,
            Marker::Reserved => 0xc1,
            Marker::False => 0xc2,
            Marker::True => 0xc3,
            Marker::Bin8 => 0xc4,
            Marker::Bin16 => 0xc5,
            Marker::Bin32 => 0xc6,
            Marker::Ext8 => 0xc7,
            Marker::Ext16 => 0xc8,
            Marker::Ext32 => 0xc9,
            Marker::F32 => 0xca,
            Marker::F64 => 0xcb,
            Marker::U8 => 0xcc,
            Marker::U16 => 0xcd,
            Marker::U32 => 0xce,
            Marker::U64 => 0xcf,
            Marker::I8 => 0xd0,
            Marker::I16 => 0xd1,
            Marker::I32 => 0xd2,
            Marker::I64 => 0xd3,
            Marker::FixExt1 => 0xd4,
            Marker::FixExt2 => 0xd5,
            Marker::FixExt4 => 0xd6,
            Marker::FixExt8 => 0xd7,
            Marker::FixExt16 => 0xd8,
            Marker::Str8 => 0xd9,
            Marker::Str16 => 0xda,
            Marker::Str32 => 0xdb,
            Marker::Array16 => 0xdc,
            Marker::Array32 => 0xdd,
            Marker::Map16 => 0xde,
            Marker::Map32 => 0xdf,
            Marker::FixNeg(v) => if -32 <= v && v < 0 {
                ((v as i16) + 256) as u8
            } else {
                0xe0
            },
        }
    }
}

/// Classifying a byte and writing the marker back yields the same byte:
/// the marker byte map loses nothing.
pub proof fn lemma_byte_marker_byte(b: u8)
    ensures
        byte_of_marker(marker_of_byte(b)) == b,
        wf_marker(marker_of_byte(b)),
{
}

/// Writing a well-formed marker and classifying the byte yields the same
/// marker: together with `lemma_byte_marker_byte`, the map is a bijection
/// between bytes and well-formed markers.
pub proof fn lemma_marker_byte_marker(m: Marker)
    requires
        wf_marker(m),
    ensures
        marker_of_byte(byte_of_marker(m)) == m,
{
}

} // verus!
