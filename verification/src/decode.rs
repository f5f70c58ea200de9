//! The decoder: reads markers and payloads from a borrowed byte slice and
//! rebuilds data-model values, guarding every recursive descent with a depth
//! counter.

use vstd::prelude::*;
use crate::config::{BinaryConfig, DefaultConfig, HumanReadableConfig, SerializerConfig};
use crate::error::{Error, ValueReadError};
use crate::marker::{Marker, marker_of_byte, byte_of_marker, wf_marker};
use crate::read::{BytesReadError, ReadRefReader};
use crate::value::{Value, ValueModel, value_model, value_models, pair_models};
use crate::wire::{
    be_val, pow256, read_be_u64, read_be_u128, lemma_be_bytes_of_val, lemma_be_val_single,
    lemma_pow256_units,
};

verus! {

/// How decoding a value can fail, at the specification level. The executable
/// decoder refines each case into a concrete [`Error`], as
/// [`failure_matches`] states.
#[derive(Clone, Copy, Debug, PartialEq, Eq, Structural)]
pub enum DecodeFailure {
    /// The input ended before the value did.
    Truncated,
    /// The reserved marker `0xc1` was met.
    Reserved,
    /// The depth counter ran out on a recursive descent.
    DepthLimit,
}

/// Which concrete errors the executable decoder reports for each
/// specification-level failure.
pub open spec fn failure_matches(e: Error, k: DecodeFailure) -> bool {
    match k {
        DecodeFailure::Truncated => e matches Error::InvalidValueRead(_),
        DecodeFailure::Reserved => e == Error::TypeMismatch(Marker::Reserved),
        DecodeFailure::DepthLimit => e == Error::DepthLimitExceeded,
    }
}

/// An integer as a value: non-negative readings become `Uint`, negative ones
/// `Int`, whatever marker carried them.
pub open spec fn int_model(x: int) -> ValueModel {
    if x >= 0 {
        ValueModel::Uint(x as u64)
    } else {
        ValueModel::Int(x as i64)
    }
}

/// The two's-complement reading of a big-endian byte string.
pub open spec fn signed_be_val(s: Seq<u8>) -> int {
    if be_val(s) >= pow256(s.len()) / 2 {
        be_val(s) - pow256(s.len())
    } else {
        be_val(s)
    }
}

/// Decodes the first value of `b`: the result of the marker dispatch of
/// `deserialize_any`, together with how many bytes the value occupied.
pub open spec fn spec_decode(b: Seq<u8>, depth: nat) -> Result<(ValueModel, int), DecodeFailure>
    decreases depth, 0nat, 2nat,
{
    if b.len() == 0 {
        Err(DecodeFailure::Truncated)
    } else {
        match spec_decode_body(marker_of_byte(b.first()), b.skip(1), depth) {
            Ok(p) => Ok((p.0, p.1 + 1)),
            Err(e) => Err(e),
        }
    }
}

/// Decodes the payload behind a marker from the bytes that follow it; the
/// count is of payload bytes alone.
pub open spec fn spec_decode_body(m: Marker, b: Seq<u8>, depth: nat) -> Result<
    (ValueModel, int),
    DecodeFailure,
>
    decreases depth, 0nat, 1nat,
{
    match m {
        Marker::Null => Ok((ValueModel::Nil, 0)),
        Marker::True => Ok((ValueModel::Bool(true), 0)),
        Marker::False => Ok((ValueModel::Bool(false), 0)),
        Marker::FixPos(v) => Ok((ValueModel::Uint(v as u64), 0)),
        Marker::FixNeg(v) => Ok((ValueModel::Int(v as i64), 0)),
        Marker::U8 => if b.len() >= 1 {
            Ok((ValueModel::Uint(b[0] as u64), 1))
        } else {
            Err(DecodeFailure::Truncated)
        },
        Marker::U16 => if b.len() >= 2 {
            Ok((ValueModel::Uint(be_val(b.subrange(0, 2)) as u64), 2))
        } else {
            Err(DecodeFailure::Truncated)
        },
        Marker::U32 => if b.len() >= 4 {
            Ok((ValueModel::Uint(be_val(b.subrange(0, 4)) as u64), 4))
        } else {
            Err(DecodeFailure::Truncated)
        },
        Marker::U64 => if b.len() >= 8 {
            Ok((ValueModel::Uint(be_val(b.subrange(0, 8)) as u64), 8))
        } else {
            Err(DecodeFailure::Truncated)
        },
        Marker::I8 => if b.len() >= 1 {
            Ok((int_model(signed_be_val(b.subrange(0, 1))), 1))
        } else {
            Err(DecodeFailure::Truncated)
        },
        Marker::I16 => if b.len() >= 2 {
            Ok((int_model(signed_be_val(b.subrange(0, 2))), 2))
        } else {
            Err(DecodeFailure::Truncated)
        },
        Marker::I32 => if b.len() >= 4 {
            Ok((int_model(signed_be_val(b.subrange(0, 4))), 4))
        } else {
            Err(DecodeFailure::Truncated)
        },
        Marker::I64 => if b.len() >= 8 {
            Ok((int_model(signed_be_val(b.subrange(0, 8))), 8))
        } else {
            Err(DecodeFailure::Truncated)
        },
        Marker::F32 => if b.len() >= 4 {
            Ok((ValueModel::F32Bits(be_val(b.subrange(0, 4)) as u32), 4))
        } else {
            Err(DecodeFailure::Truncated)
        },
        Marker::F64 => if b.len() >= 8 {
            Ok((ValueModel::F64Bits(be_val(b.subrange(0, 8)) as u64), 8))
        } else {
            Err(DecodeFailure::Truncated)
        },
        Marker::FixStr(l) => spec_decode_raw(b, 0, l as int, true),
        Marker::Str8 => if b.len() >= 1 {
            spec_decode_raw(b, 1, b[0] as int, true)
        } else {
            Err(DecodeFailure::Truncated)
        },
        Marker::Str16 => if b.len() >= 2 {
            spec_decode_raw(b, 2, be_val(b.subrange(0, 2)), true)
        } else {
            Err(DecodeFailure::Truncated)
        },
        Marker::Str32 => if b.len() >= 4 {
            spec_decode_raw(b, 4, be_val(b.subrange(0, 4)), true)
        } else {
            Err(DecodeFailure::Truncated)
        },
        Marker::Bin8 => if b.len() >= 1 {
            spec_decode_raw(b, 1, b[0] as int, false)
        } else {
            Err(DecodeFailure::Truncated)
        },
        Marker::Bin16 => if b.len() >= 2 {
            spec_decode_raw(b, 2, be_val(b.subrange(0, 2)), false)
        } else {
            Err(DecodeFailure::Truncated)
        },
        Marker::Bin32 => if b.len() >= 4 {
            spec_decode_raw(b, 4, be_val(b.subrange(0, 4)), false)
        } else {
            Err(DecodeFailure::Truncated)
        },
        Marker::FixArray(l) => spec_decode_array(b, 0, l as nat, depth),
        Marker::Array16 => if b.len() >= 2 {
            spec_decode_array(b, 2, be_val(b.subrange(0, 2)) as nat, depth)
        } else {
            Err(DecodeFailure::Truncated)
        },
        Marker::Array32 => if b.len() >= 4 {
            spec_decode_array(b, 4, be_val(b.subrange(0, 4)) as nat, depth)
        } else {
            Err(DecodeFailure::Truncated)
        },
        Marker::FixMap(l) => spec_decode_map(b, 0, l as nat, depth),
        Marker::Map16 => if b.len() >= 2 {
            spec_decode_map(b, 2, be_val(b.subrange(0, 2)) as nat, depth)
        } else {
            Err(DecodeFailure::Truncated)
        },
        Marker::Map32 => if b.len() >= 4 {
            spec_decode_map(b, 4, be_val(b.subrange(0, 4)) as nat, depth)
        } else {
            Err(DecodeFailure::Truncated)
        },
        Marker::FixExt1 => spec_decode_ext(b, 0, 1, depth),
        Marker::FixExt2 => spec_decode_ext(b, 0, 2, depth),
        Marker::FixExt4 => spec_decode_ext(b, 0, 4, depth),
        Marker::FixExt8 => spec_decode_ext(b, 0, 8, depth),
        Marker::FixExt16 => spec_decode_ext(b, 0, 16, depth),
        Marker::Ext8 => if b.len() >= 1 {
            spec_decode_ext(b, 1, b[0] as int, depth)
        } else {
            Err(DecodeFailure::Truncated)
        },
        Marker::Ext16 => if b.len() >= 2 {
            spec_decode_ext(b, 2, be_val(b.subrange(0, 2)), depth)
        } else {
            Err(DecodeFailure::Truncated)
        },
        Marker::Ext32 => if b.len() >= 4 {
            spec_decode_ext(b, 4, be_val(b.subrange(0, 4)), depth)
        } else {
            Err(DecodeFailure::Truncated)
        },
        Marker::Reserved => Err(DecodeFailure::Reserved),
    }
}

/// The payload of a string or byte-array value: `hdr` length bytes were
/// already accounted, `len` payload bytes follow them.
pub open spec fn spec_decode_raw(b: Seq<u8>, hdr: int, len: int, str_like: bool) -> Result<
    (ValueModel, int),
    DecodeFailure,
> {
    if b.len() >= hdr + len {
        if str_like {
            Ok((ValueModel::Str(b.subrange(hdr, hdr + len)), hdr + len))
        } else {
            Ok((ValueModel::Bin(b.subrange(hdr, hdr + len)), hdr + len))
        }
    } else {
        Err(DecodeFailure::Truncated)
    }
}

/// The payload of an ext value: one depth level, then the tag byte and `len`
/// opaque payload bytes.
pub open spec fn spec_decode_ext(b: Seq<u8>, hdr: int, len: int, depth: nat) -> Result<
    (ValueModel, int),
    DecodeFailure,
> {
    if depth <= 1 {
        Err(DecodeFailure::DepthLimit)
    } else if b.len() >= hdr + 1 + len {
        Ok(
            (
                ValueModel::Ext(
                    signed_be_val(b.subrange(hdr, hdr + 1)) as i8,
                    b.subrange(hdr + 1, hdr + 1 + len),
                ),
                hdr + 1 + len,
            ),
        )
    } else {
        Err(DecodeFailure::Truncated)
    }
}

/// An array body: one depth level, then `n` elements decoded in turn.
pub open spec fn spec_decode_array(b: Seq<u8>, hdr: int, n: nat, depth: nat) -> Result<
    (ValueModel, int),
    DecodeFailure,
>
    decreases depth, 0nat, 0nat,
{
    if depth <= 1 {
        Err(DecodeFailure::DepthLimit)
    } else {
        match spec_decode_elems(b.skip(hdr), n, (depth - 1) as nat) {
            Ok(p) => Ok((ValueModel::Array(p.0), hdr + p.1)),
            Err(e) => Err(e),
        }
    }
}

/// A map body: one depth level, then `n` key-value pairs decoded in turn.
pub open spec fn spec_decode_map(b: Seq<u8>, hdr: int, n: nat, depth: nat) -> Result<
    (ValueModel, int),
    DecodeFailure,
>
    decreases depth, 0nat, 0nat,
{
    if depth <= 1 {
        Err(DecodeFailure::DepthLimit)
    } else {
        match spec_decode_pairs(b.skip(hdr), n, (depth - 1) as nat) {
            Ok(p) => Ok((ValueModel::Mapping(p.0), hdr + p.1)),
            Err(e) => Err(e),
        }
    }
}

/// `n` values decoded one after the other.
pub open spec fn spec_decode_elems(b: Seq<u8>, n: nat, depth: nat) -> Result<
    (Seq<ValueModel>, int),
    DecodeFailure,
>
    decreases depth, n, 0nat,
{
    if n == 0 {
        Ok((Seq::empty(), 0))
    } else {
        match spec_decode(b, depth) {
            Ok(p) => match spec_decode_elems(b.skip(p.1), (n - 1) as nat, depth) {
                Ok(q) => Ok((seq![p.0] + q.0, p.1 + q.1)),
                Err(e) => Err(e),
            },
            Err(e) => Err(e),
        }
    }
}

/// `n` key-value pairs decoded one after the other.
pub open spec fn spec_decode_pairs(b: Seq<u8>, n: nat, depth: nat) -> Result<
    (Seq<(ValueModel, ValueModel)>, int),
    DecodeFailure,
>
    decreases depth, n, 0nat,
{
    if n == 0 {
        Ok((Seq::empty(), 0))
    } else {
        match spec_decode(b, depth) {
            Ok(k) => match spec_decode(b.skip(k.1), depth) {
                Ok(v) => match spec_decode_pairs(
                    b.skip(k.1 + v.1),
                    (n - 1) as nat,
                    depth,
                ) {
                    Ok(q) => Ok((seq![(k.0, v.0)] + q.0, k.1 + v.1 + q.1)),
                    Err(e) => Err(e),
                },
                Err(e) => Err(e),
            },
            Err(e) => Err(e),
        }
    }
}

/// A successful decode consumes no more bytes than the input holds.
pub proof fn lemma_decode_len(b: Seq<u8>, depth: nat)
    ensures
        spec_decode(b, depth) matches Ok(p) ==> 1 <= p.1 <= b.len(),
    decreases depth, 0nat, 2nat,
{
    if b.len() > 0 {
        lemma_decode_body_len(marker_of_byte(b.first()), b.skip(1), depth);
    }
}

/// Bounds for a string or byte-array payload.
proof fn lemma_decode_raw_len(b: Seq<u8>, hdr: int, len: int, str_like: bool)
    ensures
        spec_decode_raw(b, hdr, len, str_like) matches Ok(p) ==> p.1 == hdr + len <= b.len(),
{
}

/// Bounds for an ext payload.
proof fn lemma_decode_ext_len(b: Seq<u8>, hdr: int, len: int, depth: nat)
    ensures
        spec_decode_ext(b, hdr, len, depth) matches Ok(p) ==> p.1 == hdr + 1 + len <= b.len(),
{
}

#[verifier::rlimit(100)]
#[verifier::spinoff_prover]
pub proof fn lemma_decode_body_len(m: Marker, b: Seq<u8>, depth: nat)
    ensures
        spec_decode_body(m, b, depth) matches Ok(p) ==> 0 <= p.1 <= b.len(),
    decreases depth, 0nat, 1nat,
{
    if b.len() >= 1 {
        lemma_be_val_single(b);
    }
    if b.len() >= 2 {
        lemma_be_bytes_of_val(b.subrange(0, 2));
    }
    if b.len() >= 4 {
        lemma_be_bytes_of_val(b.subrange(0, 4));
    }
    match m {
        Marker::FixStr(l) => lemma_decode_raw_len(b, 0, l as int, true),
        Marker::Str8 => if b.len() >= 1 {
            lemma_decode_raw_len(b, 1, b[0] as int, true);
        },
        Marker::Str16 => if b.len() >= 2 {
            lemma_decode_raw_len(b, 2, be_val(b.subrange(0, 2)), true);
        },
        Marker::Str32 => if b.len() >= 4 {
            lemma_decode_raw_len(b, 4, be_val(b.subrange(0, 4)), true);
        },
        Marker::Bin8 => if b.len() >= 1 {
            lemma_decode_raw_len(b, 1, b[0] as int, false);
        },
        Marker::Bin16 => if b.len() >= 2 {
            lemma_decode_raw_len(b, 2, be_val(b.subrange(0, 2)), false);
        },
        Marker::Bin32 => if b.len() >= 4 {
            lemma_decode_raw_len(b, 4, be_val(b.subrange(0, 4)), false);
        },
        Marker::FixExt1 => lemma_decode_ext_len(b, 0, 1, depth),
        Marker::FixExt2 => lemma_decode_ext_len(b, 0, 2, depth),
        Marker::FixExt4 => lemma_decode_ext_len(b, 0, 4, depth),
        Marker::FixExt8 => lemma_decode_ext_len(b, 0, 8, depth),
        Marker::FixExt16 => lemma_decode_ext_len(b, 0, 16, depth),
        Marker::Ext8 => if b.len() >= 1 {
            lemma_decode_ext_len(b, 1, b[0] as int, depth);
        },
        Marker::Ext16 => if b.len() >= 2 {
            lemma_decode_ext_len(b, 2, be_val(b.subrange(0, 2)), depth);
        },
        Marker::Ext32 => if b.len() >= 4 {
            lemma_decode_ext_len(b, 4, be_val(b.subrange(0, 4)), depth);
        },
        Marker::FixArray(l) => lemma_decode_array_len(b, 0, l as nat, depth),
        Marker::Array16 => if b.len() >= 2 {
            lemma_decode_array_len(b, 2, be_val(b.subrange(0, 2)) as nat, depth);
        },
        Marker::Array32 => if b.len() >= 4 {
            lemma_decode_array_len(b, 4, be_val(b.subrange(0, 4)) as nat, depth);
        },
        Marker::FixMap(l) => lemma_decode_map_len(b, 0, l as nat, depth),
        Marker::Map16 => if b.len() >= 2 {
            lemma_decode_map_len(b, 2, be_val(b.subrange(0, 2)) as nat, depth);
        },
        Marker::Map32 => if b.len() >= 4 {
            lemma_decode_map_len(b, 4, be_val(b.subrange(0, 4)) as nat, depth);
        },
        _ => {},
    }
}

pub proof fn lemma_decode_array_len(b: Seq<u8>, hdr: int, n: nat, depth: nat)
    requires
        0 <= hdr <= b.len(),
    ensures
        spec_decode_array(b, hdr, n, depth) matches Ok(p) ==> 0 <= p.1 <= b.len(),
    decreases depth, 0nat, 0nat,
{
    if depth > 1 {
        lemma_decode_elems_len(b.skip(hdr), n, (depth - 1) as nat);
    }
}

pub proof fn lemma_decode_map_len(b: Seq<u8>, hdr: int, n: nat, depth: nat)
    requires
        0 <= hdr <= b.len(),
    ensures
        spec_decode_map(b, hdr, n, depth) matches Ok(p) ==> 0 <= p.1 <= b.len(),
    decreases depth, 0nat, 0nat,
{
    if depth > 1 {
        lemma_decode_pairs_len(b.skip(hdr), n, (depth - 1) as nat);
    }
}

pub proof fn lemma_decode_elems_len(b: Seq<u8>, n: nat, depth: nat)
    ensures
        spec_decode_elems(b, n, depth) matches Ok(p) ==> 0 <= p.1 <= b.len() && p.0.len() == n,
    decreases depth, n, 0nat,
{
    if n > 0 {
        lemma_decode_len(b, depth);
        match spec_decode(b, depth) {
            Ok(p) => {
                lemma_decode_elems_len(b.skip(p.1), (n - 1) as nat, depth);
            },
            Err(_) => {},
        }
    }
}

pub proof fn lemma_decode_pairs_len(b: Seq<u8>, n: nat, depth: nat)
    ensures
        spec_decode_pairs(b, n, depth) matches Ok(p) ==> 0 <= p.1 <= b.len() && p.0.len() == n,
    decreases depth, n, 0nat,
{
    if n > 0 {
        lemma_decode_len(b, depth);
        match spec_decode(b, depth) {
            Ok(k) => {
                lemma_decode_len(b.skip(k.1), depth);
                match spec_decode(b.skip(k.1), depth) {
                    Ok(v) => {
                        assert(b.skip(k.1).skip(v.1) =~= b.skip(k.1 + v.1));
                        lemma_decode_pairs_len(b.skip(k.1 + v.1), (n - 1) as nat, depth);
                    },
                    Err(_) => {},
                }
            },
            Err(_) => {},
        }
    }
}

/// The loop invariant of the array reader: what has been decoded so far,
/// together with whatever the rest decodes to, makes up the whole run.
pub open spec fn elems_progress(
    b0: Seq<u8>,
    total: nat,
    cur: Seq<u8>,
    left: nat,
    done: Seq<ValueModel>,
    consumed: int,
    d: nat,
) -> bool {
    match spec_decode_elems(cur, left, d) {
        Ok(q) => spec_decode_elems(b0, total, d) == Ok::<(Seq<ValueModel>, int), DecodeFailure>(
            (done + q.0, consumed + q.1),
        ),
        Err(e) => spec_decode_elems(b0, total, d) == Err::<(Seq<ValueModel>, int), DecodeFailure>(
            e,
        ),
    }
}

proof fn lemma_elems_step(
    b0: Seq<u8>,
    total: nat,
    cur: Seq<u8>,
    left: nat,
    done: Seq<ValueModel>,
    consumed: int,
    d: nat,
    v: ValueModel,
    c: int,
)
    requires
        left > 0,
        spec_decode(cur, d) == Ok::<(ValueModel, int), DecodeFailure>((v, c)),
        elems_progress(b0, total, cur, left, done, consumed, d),
    ensures
        elems_progress(b0, total, cur.skip(c), (left - 1) as nat, done.push(v), consumed + c, d),
{
    match spec_decode_elems(cur.skip(c), (left - 1) as nat, d) {
        Ok(q2) => {
            assert(spec_decode_elems(cur, left, d) == Ok::<
                (Seq<ValueModel>, int),
                DecodeFailure,
            >((seq![v] + q2.0, c + q2.1)));
            assert(done + (seq![v] + q2.0) =~= done.push(v) + q2.0);
        },
        Err(_) => {},
    }
}

proof fn lemma_elems_err(
    b0: Seq<u8>,
    total: nat,
    cur: Seq<u8>,
    left: nat,
    done: Seq<ValueModel>,
    consumed: int,
    d: nat,
    k: DecodeFailure,
)
    requires
        left > 0,
        spec_decode(cur, d) == Err::<(ValueModel, int), DecodeFailure>(k),
        elems_progress(b0, total, cur, left, done, consumed, d),
    ensures
        spec_decode_elems(b0, total, d) == Err::<(Seq<ValueModel>, int), DecodeFailure>(k),
{
}

/// The loop invariant of the map reader.
pub open spec fn pairs_progress(
    b0: Seq<u8>,
    total: nat,
    cur: Seq<u8>,
    left: nat,
    done: Seq<(ValueModel, ValueModel)>,
    consumed: int,
    d: nat,
) -> bool {
    match spec_decode_pairs(cur, left, d) {
        Ok(q) => spec_decode_pairs(b0, total, d) == Ok::<
            (Seq<(ValueModel, ValueModel)>, int),
            DecodeFailure,
        >((done + q.0, consumed + q.1)),
        Err(e) => spec_decode_pairs(b0, total, d) == Err::<
            (Seq<(ValueModel, ValueModel)>, int),
            DecodeFailure,
        >(e),
    }
}

proof fn lemma_pairs_step(
    b0: Seq<u8>,
    total: nat,
    cur: Seq<u8>,
    left: nat,
    done: Seq<(ValueModel, ValueModel)>,
    consumed: int,
    d: nat,
    k: ValueModel,
    ck: int,
    v: ValueModel,
    cv: int,
)
    requires
        left > 0,
        spec_decode(cur, d) == Ok::<(ValueModel, int), DecodeFailure>((k, ck)),
        spec_decode(cur.skip(ck), d) == Ok::<(ValueModel, int), DecodeFailure>((v, cv)),
        pairs_progress(b0, total, cur, left, done, consumed, d),
    ensures
        pairs_progress(
            b0,
            total,
            cur.skip(ck + cv),
            (left - 1) as nat,
            done.push((k, v)),
            consumed + ck + cv,
            d,
        ),
{
    lemma_decode_len(cur, d);
    lemma_decode_len(cur.skip(ck), d);
    assert(cur.skip(ck).skip(cv) =~= cur.skip(ck + cv));
    match spec_decode_pairs(cur.skip(ck + cv), (left - 1) as nat, d) {
        Ok(q2) => {
            assert(spec_decode_pairs(cur, left, d) == Ok::<
                (Seq<(ValueModel, ValueModel)>, int),
                DecodeFailure,
            >((seq![(k, v)] + q2.0, ck + cv + q2.1)));
            assert(done + (seq![(k, v)] + q2.0) =~= done.push((k, v)) + q2.0);
        },
        Err(_) => {},
    }
}

proof fn lemma_pairs_err(
    b0: Seq<u8>,
    total: nat,
    cur: Seq<u8>,
    left: nat,
    done: Seq<(ValueModel, ValueModel)>,
    consumed: int,
    d: nat,
    k: DecodeFailure,
)
    requires
        left > 0,
        (spec_decode(cur, d) == Err::<(ValueModel, int), DecodeFailure>(k)) || (
        spec_decode(cur, d) matches Ok(p) && spec_decode(cur.skip(p.1), d) == Err::<
            (ValueModel, int),
            DecodeFailure,
        >(k)),
        pairs_progress(b0, total, cur, left, done, consumed, d),
    ensures
        spec_decode_pairs(b0, total, d) == Err::<
            (Seq<(ValueModel, ValueModel)>, int),
            DecodeFailure,
        >(k),
{
}

/// Shifting past the `hdr` length bytes commutes with decoding a raw
/// payload.
proof fn lemma_raw_shift(b: Seq<u8>, hdr: int, len: int, str_like: bool)
    requires
        0 <= hdr <= b.len(),
        0 <= len,
    ensures
        (match spec_decode_raw(b.skip(hdr), 0, len, str_like) {
            Ok(q) => spec_decode_raw(b, hdr, len, str_like) == Ok::<
                (ValueModel, int),
                DecodeFailure,
            >((q.0, hdr + q.1)) && q.1 == len && b.skip(hdr).skip(q.1) == b.skip(hdr + q.1),
            Err(e) => spec_decode_raw(b, hdr, len, str_like) == Err::<
                (ValueModel, int),
                DecodeFailure,
            >(e),
        }),
{
    if b.len() >= hdr + len {
        assert(b.skip(hdr).subrange(0, len) =~= b.subrange(hdr, hdr + len));
        assert(b.skip(hdr).skip(len) =~= b.skip(hdr + len));
    }
}

/// Shifting past the `hdr` length bytes commutes with decoding an ext
/// payload.
proof fn lemma_ext_shift(b: Seq<u8>, hdr: int, len: int, depth: nat)
    requires
        0 <= hdr <= b.len(),
        0 <= len,
    ensures
        (match spec_decode_ext(b.skip(hdr), 0, len, depth) {
            Ok(q) => spec_decode_ext(b, hdr, len, depth) == Ok::<
                (ValueModel, int),
                DecodeFailure,
            >((q.0, hdr + q.1)) && q.1 == 1 + len && b.skip(hdr).skip(q.1) == b.skip(hdr + q.1),
            Err(e) => spec_decode_ext(b, hdr, len, depth) == Err::<
                (ValueModel, int),
                DecodeFailure,
            >(e),
        }),
{
    if depth > 1 && b.len() >= hdr + 1 + len {
        assert(b.skip(hdr).subrange(0, 1) =~= b.subrange(hdr, hdr + 1));
        assert(b.skip(hdr).subrange(1, 1 + len) =~= b.subrange(hdr + 1, hdr + 1 + len));
        assert(b.skip(hdr).skip(1 + len) =~= b.skip(hdr + 1 + len));
    }
}

/// Shifting past the `hdr` length bytes commutes with decoding an array
/// body.
proof fn lemma_array_shift(b: Seq<u8>, hdr: int, n: nat, depth: nat)
    requires
        0 <= hdr <= b.len(),
    ensures
        (match spec_decode_array(b.skip(hdr), 0, n, depth) {
            Ok(q) => spec_decode_array(b, hdr, n, depth) == Ok::<
                (ValueModel, int),
                DecodeFailure,
            >((q.0, hdr + q.1)) && 0 <= q.1 <= b.skip(hdr).len() && b.skip(hdr).skip(q.1) == b.skip(
                hdr + q.1,
            ),
            Err(e) => spec_decode_array(b, hdr, n, depth) == Err::<
                (ValueModel, int),
                DecodeFailure,
            >(e),
        }),
{
    assert(b.skip(hdr).skip(0) =~= b.skip(hdr));
    if depth > 1 {
        lemma_decode_elems_len(b.skip(hdr), n, (depth - 1) as nat);
        match spec_decode_elems(b.skip(hdr), n, (depth - 1) as nat) {
            Ok(q) => {
                assert(b.skip(hdr).skip(q.1) =~= b.skip(hdr + q.1));
            },
            Err(_) => {},
        }
    }
}

/// Shifting past the `hdr` length bytes commutes with decoding a map body.
proof fn lemma_map_shift(b: Seq<u8>, hdr: int, n: nat, depth: nat)
    requires
        0 <= hdr <= b.len(),
    ensures
        (match spec_decode_map(b.skip(hdr), 0, n, depth) {
            Ok(q) => spec_decode_map(b, hdr, n, depth) == Ok::<
                (ValueModel, int),
                DecodeFailure,
            >((q.0, hdr + q.1)) && 0 <= q.1 <= b.skip(hdr).len() && b.skip(hdr).skip(q.1) == b.skip(
                hdr + q.1,
            ),
            Err(e) => spec_decode_map(b, hdr, n, depth) == Err::<
                (ValueModel, int),
                DecodeFailure,
            >(e),
        }),
{
    assert(b.skip(hdr).skip(0) =~= b.skip(hdr));
    if depth > 1 {
        lemma_decode_pairs_len(b.skip(hdr), n, (depth - 1) as nat);
        match spec_decode_pairs(b.skip(hdr), n, (depth - 1) as nat) {
            Ok(q) => {
                assert(b.skip(hdr).skip(q.1) =~= b.skip(hdr + q.1));
            },
            Err(_) => {},
        }
    }
}

/// Wraps a short read of payload bytes.
fn data_read_err(e: BytesReadError) -> (r: Error)
    ensures
        r == Error::InvalidValueRead(ValueReadError::InvalidDataRead(e)),
{
    Error::InvalidValueRead(ValueReadError::InvalidDataRead(e))
}

/// Reads an `n`-byte big-endian quantity.
fn read_be_num<'de>(rd: &mut ReadRefReader<'de>, n: usize) -> (r: Result<u64, Error>)
    requires
        1 <= n <= 8,
    ensures
        old(rd)@.len() >= n ==> {
            &&& r matches Ok(v) && v == be_val(old(rd)@.subrange(0, n as int))
            &&& 0 <= be_val(old(rd)@.subrange(0, n as int)) < pow256(n as nat)
            &&& final(rd)@ == old(rd)@.skip(n as int)
        },
        old(rd)@.len() < n ==> {
            &&& r matches Err(e) && (e matches Error::InvalidValueRead(_))
            &&& final(rd)@ == old(rd)@
        },
{
    match rd.read_bytes(n) {
        Ok(s) => {
            proof {
                assert(s@ =~= old(rd)@.subrange(0, n as int));
                lemma_be_bytes_of_val(s@);
            }
            Ok(read_be_u64(s))
        },
        Err(e) => Err(data_read_err(e)),
    }
}

/// Reads the payload behind marker `m` from the bytes after it, `depth`
/// levels of descent allowed, and builds the value: the executable form of
/// [`spec_decode_body`].
#[verifier::loop_isolation(false)]
#[verifier::rlimit(100)]
fn read_body<'de>(rd: &mut ReadRefReader<'de>, m: Marker, depth: usize) -> (r: Result<
    Value<'de>,
    Error,
>)
    ensures
        match r {
            Ok(v) => (spec_decode_body(m, old(rd)@, depth as nat) matches Ok(p) && p.0 == v@
                && final(rd)@ == old(rd)@.skip(p.1)),
            Err(e) => (spec_decode_body(m, old(rd)@, depth as nat) matches Err(k)
                && failure_matches(e, k)),
        },
    decreases depth, 1nat,
{
    proof {
        lemma_pow256_units();
        assert(old(rd)@.skip(0) =~= old(rd)@);
    }
    match m {
        Marker::Null => Ok(Value::Nil),
        Marker::True => Ok(Value::Bool(true)),
        Marker::False => Ok(Value::Bool(false)),
        Marker::Reserved => Err(Error::TypeMismatch(Marker::Reserved)),
        Marker::FixPos(v) => Ok(Value::Uint(v as u64)),
        Marker::FixNeg(v) => Ok(Value::Int(v as i64)),
        Marker::U8 => {
            let v = match read_be_num(rd, 1) {
                Ok(v) => v,
                Err(e) => return Err(e),
            };
            proof {
                lemma_be_val_single(old(rd)@);
            }
            Ok(Value::Uint(v))
        },
        Marker::U16 => {
            let v = match read_be_num(rd, 2) {
                Ok(v) => v,
                Err(e) => return Err(e),
            };
            Ok(Value::Uint(v))
        },
        Marker::U32 => {
            let v = match read_be_num(rd, 4) {
                Ok(v) => v,
                Err(e) => return Err(e),
            };
            Ok(Value::Uint(v))
        },
        Marker::U64 => {
            let v = match read_be_num(rd, 8) {
                Ok(v) => v,
                Err(e) => return Err(e),
            };
            Ok(Value::Uint(v))
        },
        Marker::I8 => {
            let v = match read_be_num(rd, 1) {
                Ok(v) => v,
                Err(e) => return Err(e),
            };
            proof {
                lemma_be_val_single(old(rd)@);
            }
            let sval: i64 = if v >= 0x80 {
                (v as i64) - 0x100
            } else {
                v as i64
            };
            if sval >= 0 {
                Ok(Value::Uint(sval as u64))
            } else {
                Ok(Value::Int(sval))
            }
        },
        Marker::I16 => {
            let v = match read_be_num(rd, 2) {
                Ok(v) => v,
                Err(e) => return Err(e),
            };
            let sval: i64 = if v >= 0x8000 {
                (v as i64) - 0x10000
            } else {
                v as i64
            };
            if sval >= 0 {
                Ok(Value::Uint(sval as u64))
            } else {
                Ok(Value::Int(sval))
            }
        },
        Marker::I32 => {
            let v = match read_be_num(rd, 4) {
                Ok(v) => v,
                Err(e) => return Err(e),
            };
            let sval: i64 = if v >= 0x80000000 {
                (v as i64) - 0x100000000
            } else {
                v as i64
            };
            if sval >= 0 {
                Ok(Value::Uint(sval as u64))
            } else {
                Ok(Value::Int(sval))
            }
        },
        Marker::I64 => {
            let v = match read_be_num(rd, 8) {
                Ok(v) => v,
                Err(e) => return Err(e),
            };
            let sval: i64 = if v >= 0x8000000000000000 {
                ((v as i128) - 0x10000000000000000) as i64
            } else {
                v as i64
            };
            if sval >= 0 {
                Ok(Value::Uint(sval as u64))
            } else {
                Ok(Value::Int(sval))
            }
        },
        Marker::F32 => {
            let v = match read_be_num(rd, 4) {
                Ok(v) => v,
                Err(e) => return Err(e),
            };
            Ok(Value::F32Bits(v as u32))
        },
        Marker::F64 => {
            let v = match read_be_num(rd, 8) {
                Ok(v) => v,
                Err(e) => return Err(e),
            };
            Ok(Value::F64Bits(v))
        },
        Marker::FixStr(l) => read_raw_payload(rd, l as u32, true),
        Marker::Str8 => {
            let len = match read_be_num(rd, 1) {
                Ok(v) => v,
                Err(e) => return Err(e),
            };
            let r = read_raw_payload(rd, len as u32, true);
            proof {
                lemma_be_val_single(old(rd)@);
                lemma_raw_shift(old(rd)@, 1, len as int, true);
            }
            r
        },
        Marker::Str16 => {
            let len = match read_be_num(rd, 2) {
                Ok(v) => v,
                Err(e) => return Err(e),
            };
            let r = read_raw_payload(rd, len as u32, true);
            proof {
                lemma_be_val_single(old(rd)@);
                lemma_raw_shift(old(rd)@, 2, len as int, true);
            }
            r
        },
        Marker::Str32 => {
            let len = match read_be_num(rd, 4) {
                Ok(v) => v,
                Err(e) => return Err(e),
            };
            let r = read_raw_payload(rd, len as u32, true);
            proof {
                lemma_be_val_single(old(rd)@);
                lemma_raw_shift(old(rd)@, 4, len as int, true);
            }
            r
        },
        Marker::Bin8 => {
            let len = match read_be_num(rd, 1) {
                Ok(v) => v,
                Err(e) => return Err(e),
            };
            let r = read_raw_payload(rd, len as u32, false);
            proof {
                lemma_be_val_single(old(rd)@);
                lemma_raw_shift(old(rd)@, 1, len as int, false);
            }
            r
        },
        Marker::Bin16 => {
            let len = match read_be_num(rd, 2) {
                Ok(v) => v,
                Err(e) => return Err(e),
            };
            let r = read_raw_payload(rd, len as u32, false);
            proof {
                lemma_be_val_single(old(rd)@);
                lemma_raw_shift(old(rd)@, 2, len as int, false);
            }
            r
        },
        Marker::Bin32 => {
            let len = match read_be_num(rd, 4) {
                Ok(v) => v,
                Err(e) => return Err(e),
            };
            let r = read_raw_payload(rd, len as u32, false);
            proof {
                lemma_be_val_single(old(rd)@);
                lemma_raw_shift(old(rd)@, 4, len as int, false);
            }
            r
        },
        Marker::FixExt1 => read_ext_payload(rd, 1, depth),
        Marker::FixExt2 => read_ext_payload(rd, 2, depth),
        Marker::FixExt4 => read_ext_payload(rd, 4, depth),
        Marker::FixExt8 => read_ext_payload(rd, 8, depth),
        Marker::FixExt16 => read_ext_payload(rd, 16, depth),
        Marker::Ext8 => {
            let len = match read_be_num(rd, 1) {
                Ok(v) => v,
                Err(e) => return Err(e),
            };
            let r = read_ext_payload(rd, len as u32, depth);
            proof {
                lemma_be_val_single(old(rd)@);
                lemma_ext_shift(old(rd)@, 1, len as int, depth as nat);
            }
            r
        },
        Marker::Ext16 => {
            let len = match read_be_num(rd, 2) {
                Ok(v) => v,
                Err(e) => return Err(e),
            };
            let r = read_ext_payload(rd, len as u32, depth);
            proof {
                lemma_be_val_single(old(rd)@);
                lemma_ext_shift(old(rd)@, 2, len as int, depth as nat);
            }
            r
        },
        Marker::Ext32 => {
            let len = match read_be_num(rd, 4) {
                Ok(v) => v,
                Err(e) => return Err(e),
            };
            let r = read_ext_payload(rd, len as u32, depth);
            proof {
                lemma_be_val_single(old(rd)@);
                lemma_ext_shift(old(rd)@, 4, len as int, depth as nat);
            }
            r
        },
        Marker::FixArray(l) => read_array_body(rd, l as u32, depth),
        Marker::Array16 => {
            let len = match read_be_num(rd, 2) {
                Ok(v) => v,
                Err(e) => return Err(e),
            };
            let r = read_array_body(rd, len as u32, depth);
            proof {
                lemma_array_shift(old(rd)@, 2, (len as u32) as nat, depth as nat);
            }
            r
        },
        Marker::Array32 => {
            let len = match read_be_num(rd, 4) {
                Ok(v) => v,
                Err(e) => return Err(e),
            };
            let r = read_array_body(rd, len as u32, depth);
            proof {
                lemma_array_shift(old(rd)@, 4, (len as u32) as nat, depth as nat);
            }
            r
        },
        Marker::FixMap(l) => read_map_body(rd, l as u32, depth),
        Marker::Map16 => {
            let len = match read_be_num(rd, 2) {
                Ok(v) => v,
                Err(e) => return Err(e),
            };
            let r = read_map_body(rd, len as u32, depth);
            proof {
                lemma_map_shift(old(rd)@, 2, (len as u32) as nat, depth as nat);
            }
            r
        },
        Marker::Map32 => {
            let len = match read_be_num(rd, 4) {
                Ok(v) => v,
                Err(e) => return Err(e),
            };
            let r = read_map_body(rd, len as u32, depth);
            proof {
                lemma_map_shift(old(rd)@, 4, (len as u32) as nat, depth as nat);
            }
            r
        },
    }
}

/// Reads a string or byte-array payload of a known length.
fn read_raw_payload<'de>(rd: &mut ReadRefReader<'de>, len: u32, str_like: bool) -> (r: Result<
    Value<'de>,
    Error,
>)
    ensures
        match r {
            Ok(v) => (spec_decode_raw(old(rd)@, 0, len as int, str_like) matches Ok(p) && p.0 == v@
                && final(rd)@ == old(rd)@.skip(p.1)),
            Err(e) => (spec_decode_raw(old(rd)@, 0, len as int, str_like) matches Err(k)
                && failure_matches(e, k)),
        },
{
    match rd.read_bytes(len as usize) {
        Ok(s) => {
            proof {
                assert(s@ =~= old(rd)@.subrange(0, len as int));
            }
            if str_like {
                Ok(Value::Str(s))
            } else {
                Ok(Value::Bin(s))
            }
        },
        Err(e) => Err(data_read_err(e)),
    }
}

/// Reads an ext payload: the depth gate, the tag byte, then `len` opaque
/// bytes.
fn read_ext_payload<'de>(rd: &mut ReadRefReader<'de>, len: u32, depth: usize) -> (r: Result<
    Value<'de>,
    Error,
>)
    ensures
        match r {
            Ok(v) => (spec_decode_ext(old(rd)@, 0, len as int, depth as nat) matches Ok(p) && p.0
                == v@ && final(rd)@ == old(rd)@.skip(p.1)),
            Err(e) => (spec_decode_ext(old(rd)@, 0, len as int, depth as nat) matches Err(k)
                && failure_matches(e, k)),
        },
{
    if depth <= 1 {
        return Err(Error::DepthLimitExceeded);
    }
    let tag_b = match rd.read_byte() {
        Ok(b) => b,
        Err(e) => return Err(data_read_err(e)),
    };
    let tag: i8 = if tag_b >= 0x80 {
        ((tag_b as i16) - 0x100) as i8
    } else {
        tag_b as i8
    };
    proof {
        lemma_pow256_units();
        if old(rd)@.len() >= 1 {
            lemma_be_val_single(old(rd)@);
            assert(old(rd)@.subrange(0, 1)[0] == old(rd)@[0]);
        }
    }
    match rd.read_bytes(len as usize) {
        Ok(s) => {
            proof {
                assert(s@ =~= old(rd)@.subrange(1, 1 + len as int));
                assert(old(rd)@.skip(1).skip(len as int) =~= old(rd)@.skip(1 + len as int));
            }
            Ok(Value::Ext(tag, s))
        },
        Err(e) => Err(data_read_err(e)),
    }
}

/// Reads `len` array elements after the depth gate.
#[verifier::loop_isolation(false)]
#[verifier::rlimit(100)]
fn read_array_body<'de>(rd: &mut ReadRefReader<'de>, len: u32, depth: usize) -> (r: Result<
    Value<'de>,
    Error,
>)
    ensures
        match r {
            Ok(v) => (spec_decode_array(old(rd)@, 0, len as nat, depth as nat) matches Ok(p) && p.0
                == v@ && final(rd)@ == old(rd)@.skip(p.1)),
            Err(e) => (spec_decode_array(old(rd)@, 0, len as nat, depth as nat) matches Err(k)
                && failure_matches(e, k)),
        },
    decreases depth, 0nat,
{
    if depth <= 1 {
        return Err(Error::DepthLimitExceeded);
    }
    let d2 = depth - 1;
    let ghost b0 = rd@;
    let ghost d2s = d2 as nat;
    proof {
        assert(b0.skip(0) =~= b0);
    }
    let mut elems: Vec<Value<'de>> = Vec::new();
    let ghost mut consumed: int = 0;
    let mut i: u32 = 0;
    while i < len
        invariant
            i <= len,
            0 <= consumed <= b0.len(),
            rd@ == b0.skip(consumed),
            value_models(elems@).len() == i as int,
            elems_progress(
                b0,
                len as nat,
                rd@,
                (len - i) as nat,
                value_models(elems@),
                consumed,
                d2s,
            ),
        decreases len - i,
    {
        let ghost pre = rd@;
        let ghost done = value_models(elems@);
        match read_value_rec(rd, d2) {
            Ok(v) => {
                proof {
                    let p = spec_decode(pre, d2s)->Ok_0;
                    lemma_decode_len(pre, d2s);
                    assert(rd@ == pre.skip(p.1));
                    assert(b0.skip(consumed).skip(p.1) =~= b0.skip(consumed + p.1));
                    assert(value_models(elems@.push(v)) == done.push(v@)) by {
                        assert(elems@.push(v).drop_last() =~= elems@);
                    }
                    lemma_elems_step(
                        b0,
                        len as nat,
                        pre,
                        (len - i) as nat,
                        done,
                        consumed,
                        d2s,
                        v@,
                        p.1,
                    );
                    consumed = consumed + p.1;
                }
                elems.push(v);
            },
            Err(e) => {
                proof {
                    let k = spec_decode(pre, d2s)->Err_0;
                    lemma_elems_err(b0, len as nat, pre, (len - i) as nat, done, consumed, d2s, k);
                }
                return Err(e);
            },
        }
        i = i + 1;
    }
    proof {
        assert(value_models(elems@) + Seq::<ValueModel>::empty() =~= value_models(elems@));
    }
    Ok(Value::Array(elems))
}

/// Reads `len` key-value pairs after the depth gate.
#[verifier::loop_isolation(false)]
#[verifier::rlimit(100)]
fn read_map_body<'de>(rd: &mut ReadRefReader<'de>, len: u32, depth: usize) -> (r: Result<
    Value<'de>,
    Error,
>)
    ensures
        match r {
            Ok(v) => (spec_decode_map(old(rd)@, 0, len as nat, depth as nat) matches Ok(p) && p.0
                == v@ && final(rd)@ == old(rd)@.skip(p.1)),
            Err(e) => (spec_decode_map(old(rd)@, 0, len as nat, depth as nat) matches Err(k)
                && failure_matches(e, k)),
        },
    decreases depth, 0nat,
{
    if depth <= 1 {
        return Err(Error::DepthLimitExceeded);
    }
    let d2 = depth - 1;
    let ghost b0 = rd@;
    let ghost d2s = d2 as nat;
    proof {
        assert(b0.skip(0) =~= b0);
    }
    let mut entries: Vec<(Value<'de>, Value<'de>)> = Vec::new();
    let ghost mut consumed: int = 0;
    let mut i: u32 = 0;
    while i < len
        invariant
            i <= len,
            0 <= consumed <= b0.len(),
            rd@ == b0.skip(consumed),
            pair_models(entries@).len() == i as int,
            pairs_progress(
                b0,
                len as nat,
                rd@,
                (len - i) as nat,
                pair_models(entries@),
                consumed,
                d2s,
            ),
        decreases len - i,
    {
        let ghost pre = rd@;
        let ghost done = pair_models(entries@);
        let k = match read_value_rec(rd, d2) {
            Ok(k) => k,
            Err(e) => {
                proof {
                    let f = spec_decode(pre, d2s)->Err_0;
                    lemma_pairs_err(b0, len as nat, pre, (len - i) as nat, done, consumed, d2s, f);
                }
                return Err(e);
            },
        };
        let ghost kp = spec_decode(pre, d2s)->Ok_0;
        let ghost mid = rd@;
        let v = match read_value_rec(rd, d2) {
            Ok(v) => v,
            Err(e) => {
                proof {
                    let f = spec_decode(mid, d2s)->Err_0;
                    assert(mid == pre.skip(kp.1));
                    lemma_pairs_err(b0, len as nat, pre, (len - i) as nat, done, consumed, d2s, f);
                }
                return Err(e);
            },
        };
        proof {
            let vp = spec_decode(mid, d2s)->Ok_0;
            lemma_decode_len(pre, d2s);
            lemma_decode_len(mid, d2s);
            assert(mid == pre.skip(kp.1));
            assert(rd@ == mid.skip(vp.1));
            assert(pre.skip(kp.1).skip(vp.1) =~= pre.skip(kp.1 + vp.1));
            assert(b0.skip(consumed).skip(kp.1 + vp.1) =~= b0.skip(consumed + kp.1 + vp.1));
            assert(pair_models(entries@.push((k, v))) == done.push((k@, v@))) by {
                assert(entries@.push((k, v)).drop_last() =~= entries@);
            }
            lemma_pairs_step(
                b0,
                len as nat,
                pre,
                (len - i) as nat,
                done,
                consumed,
                d2s,
                k@,
                kp.1,
                v@,
                vp.1,
            );
            consumed = consumed + kp.1 + vp.1;
        }
        entries.push((k, v));
        i = i + 1;
    }
    proof {
        assert(pair_models(entries@) + Seq::<(ValueModel, ValueModel)>::empty() =~= pair_models(
            entries@,
        ));
    }
    Ok(Value::Mapping(entries))
}

/// Reads one whole value, marker first: the executable form of
/// [`spec_decode`].
fn read_value_rec<'de>(rd: &mut ReadRefReader<'de>, depth: usize) -> (r: Result<Value<'de>, Error>)
    ensures
        match r {
            Ok(v) => (spec_decode(old(rd)@, depth as nat) matches Ok(p) && p.0 == v@
                && final(rd)@ == old(rd)@.skip(p.1)),
            Err(e) => (spec_decode(old(rd)@, depth as nat) matches Err(k)
                && failure_matches(e, k)),
        },
    decreases depth, 2nat,
{
    let mb = match rd.read_byte() {
        Ok(b) => b,
        Err(e) => {
            return Err(Error::InvalidValueRead(ValueReadError::InvalidMarkerRead(e)));
        },
    };
    let m = Marker::from_u8(mb);
    let ghost after_marker = rd@;
    let r = read_body(rd, m, depth);
    proof {
        assert(old(rd)@.first() == mb);
        assert(after_marker == old(rd)@.skip(1));
        if r is Ok {
            let p = spec_decode_body(m, after_marker, depth as nat)->Ok_0;
            lemma_decode_body_len(m, after_marker, depth as nat);
            assert(old(rd)@.skip(1).skip(p.1) =~= old(rd)@.skip(1 + p.1));
        }
    }
    r
}

/// Whether a marker opens an ext value.
pub open spec fn is_ext_marker(m: Marker) -> bool {
    match m {
        Marker::FixExt1 | Marker::FixExt2 | Marker::FixExt4 | Marker::FixExt8
            | Marker::FixExt16 | Marker::Ext8 | Marker::Ext16 | Marker::Ext32 => true,
        _ => false,
    }
}

/// How an enum is framed at the current position: a one-entry container
/// holding identifier and payload, or a bare identifier.
#[derive(Clone, Copy, Debug, PartialEq, Eq, Structural)]
pub enum EnumShape {
    /// A container of length 1: identifier, then payload.
    Compound,
    /// No container: a bare identifier with no payload.
    Unit,
}

/// A streaming decoder over a borrowed byte slice: it owns the cursor, the
/// configuration, at most one stashed marker, and the remaining-depth
/// counter.
#[derive(Debug)]
pub struct Deserializer<'de, C> {
    rd: ReadRefReader<'de>,
    config: C,
    marker: Option<Marker>,
    depth: usize,
}

impl<'de, C> Deserializer<'de, C> {
    /// The undecoded input: the stashed marker byte, if one is held, then
    /// the unread bytes of the slice.
    pub closed spec fn stream(&self) -> Seq<u8> {
        match self.marker {
            Some(m) => seq![byte_of_marker(m)] + self.rd@,
            None => self.rd@,
        }
    }

    /// How many levels of recursive descent are still allowed.
    pub closed spec fn remaining_depth(&self) -> nat {
        self.depth as nat
    }

    /// The configuration value.
    pub closed spec fn spec_config(&self) -> C {
        self.config
    }

    /// A stashed marker always round-trips through its byte form.
    pub closed spec fn wf(&self) -> bool {
        self.marker matches Some(m) ==> wf_marker(m)
    }
}

impl<'de> Deserializer<'de, DefaultConfig> {
    /// Constructs a new `Deserializer` from the given byte slice, with the
    /// default configuration and the default depth limit of 1024.
    pub fn from_bytes(rd: &'de [u8]) -> (r: Self)
        ensures
            r.wf(),
            r.stream() == rd@,
            r.remaining_depth() == 1024,
            r.spec_config() == DefaultConfig,
    {
        Deserializer { rd: ReadRefReader::new(rd), config: DefaultConfig, marker: None, depth: 1024 }
    }
}

impl<'de, C: SerializerConfig> Deserializer<'de, C> {
    /// Changes the maximum nesting depth that is allowed.
    pub fn set_max_depth(&mut self, depth: usize)
        ensures
            final(self).wf() == old(self).wf(),
            final(self).stream() == old(self).stream(),
            final(self).spec_config() == old(self).spec_config(),
            final(self).remaining_depth() == depth as nat,
    {
        self.depth = depth;
    }

    /// Whether the configuration asks for human-readable representations.
    pub fn is_human_readable(&self) -> (r: bool)
        ensures
            r == self.spec_config().spec_human_readable(),
    {
        self.config.is_human_readable()
    }

    /// Consumes this deserializer and returns one that deserializes with
    /// human-readable representations.
    pub fn with_human_readable(self) -> (r: Deserializer<'de, HumanReadableConfig<C>>)
        ensures
            r.wf() == self.wf(),
            r.stream() == self.stream(),
            r.remaining_depth() == self.remaining_depth(),
            r.spec_config() == HumanReadableConfig(self.spec_config()),
    {
        let Deserializer { rd, config, marker, depth } = self;
        Deserializer { rd, config: HumanReadableConfig::new(config), marker, depth }
    }

    /// Consumes this deserializer and returns one that deserializes with
    /// binary representations.
    pub fn with_binary(self) -> (r: Deserializer<'de, BinaryConfig<C>>)
        ensures
            r.wf() == self.wf(),
            r.stream() == self.stream(),
            r.remaining_depth() == self.remaining_depth(),
            r.spec_config() == BinaryConfig(self.spec_config()),
    {
        let Deserializer { rd, config, marker, depth } = self;
        Deserializer { rd, config: BinaryConfig::new(config), marker, depth }
    }

    /// Takes the stashed marker, or reads and classifies the next byte.
    fn take_or_read_marker(&mut self) -> (r: Result<Marker, Error>)
        requires
            old(self).wf(),
        ensures
            final(self).wf(),
            final(self).spec_config() == old(self).spec_config(),
            final(self).remaining_depth() == old(self).remaining_depth(),
            old(self).stream().len() > 0 ==> {
                &&& r == Ok::<Marker, Error>(marker_of_byte(old(self).stream().first()))
                &&& wf_marker(marker_of_byte(old(self).stream().first()))
                &&& final(self).stream() == old(self).stream().skip(1)
                &&& final(self).marker_cache_empty()
            },
            old(self).stream().len() == 0 ==> {
                &&& (r matches Err(e) && e matches Error::InvalidValueRead(
                    ValueReadError::InvalidMarkerRead(_),
                ))
                &&& final(self).stream() == old(self).stream()
            },
    {
        match self.marker {
            Some(m) => {
                self.marker = None;
                proof {
                    crate::marker::lemma_marker_byte_marker(m);
                    assert(old(self).stream().first() == byte_of_marker(m));
                    assert(old(self).stream().skip(1) =~= self.rd@);
                }
                Ok(m)
            },
            None => {
                match self.rd.read_byte() {
                    Ok(b) => {
                        proof {
                            crate::marker::lemma_byte_marker_byte(b);
                        }
                        Ok(Marker::from_u8(b))
                    },
                    Err(e) => Err(
                        Error::InvalidValueRead(ValueReadError::InvalidMarkerRead(e)),
                    ),
                }
            },
        }
    }

    /// Whether no marker is stashed.
    pub closed spec fn marker_cache_empty(&self) -> bool {
        self.marker is None
    }

    /// Stashes a marker back, so that the next read sees it again.
    fn stash_marker(&mut self, m: Marker)
        requires
            old(self).marker_cache_empty(),
            wf_marker(m),
        ensures
            final(self).wf(),
            final(self).spec_config() == old(self).spec_config(),
            final(self).remaining_depth() == old(self).remaining_depth(),
            final(self).stream() == seq![byte_of_marker(m)] + old(self).stream(),
    {
        self.marker = Some(m);
    }

    /// Reads one whole value, dispatching on its marker.
    pub fn read_value(&mut self) -> (r: Result<Value<'de>, Error>)
        requires
            old(self).wf(),
        ensures
            final(self).wf(),
            final(self).spec_config() == old(self).spec_config(),
            final(self).remaining_depth() == old(self).remaining_depth(),
            match r {
                Ok(v) => (spec_decode(old(self).stream(), old(self).remaining_depth()) matches Ok(
                    p,
                ) && p.0 == v@ && final(self).stream() == old(self).stream().skip(p.1)),
                Err(e) => (spec_decode(old(self).stream(), old(self).remaining_depth()) matches Err(
                    k,
                ) && failure_matches(e, k)),
            },
    {
        let depth = self.depth;
        let m = match self.take_or_read_marker() {
            Ok(m) => m,
            Err(e) => {
                return Err(e);
            },
        };
        let ghost mid = self.stream();
        let r = read_body(&mut self.rd, m, depth);
        proof {
            assert(mid == old(self).stream().skip(1));
            if r is Ok {
                let p = spec_decode_body(m, mid, depth as nat)->Ok_0;
                lemma_decode_body_len(m, mid, depth as nat);
                assert(old(self).stream().skip(1).skip(p.1) =~= old(self).stream().skip(1 + p.1));
            }
        }
        r
    }

    /// The `Option` decision: a `nil` marker is `None` and is consumed; any
    /// other marker means `Some`, and is left in place for the value that
    /// follows.
    pub fn read_option_header(&mut self) -> (r: Result<bool, Error>)
        requires
            old(self).wf(),
        ensures
            final(self).wf(),
            final(self).spec_config() == old(self).spec_config(),
            final(self).remaining_depth() == old(self).remaining_depth(),
            old(self).stream().len() == 0 <==> r is Err,
            r matches Err(e) ==> (e matches Error::InvalidValueRead(_)) && final(self).stream()
                == old(self).stream(),
            r matches Ok(some) ==> {
                &&& some == (old(self).stream().first() != 0xc0)
                &&& !some ==> final(self).stream() == old(self).stream().skip(1)
                &&& some ==> final(self).stream() == old(self).stream()
            },
    {
        let m = match self.take_or_read_marker() {
            Ok(m) => m,
            Err(e) => {
                return Err(e);
            },
        };
        proof {
            crate::marker::lemma_byte_marker_byte(old(self).stream().first());
        }
        if m.is_null() {
            Ok(false)
        } else {
            self.stash_marker(m);
            proof {
                assert(final(self).stream() =~= old(self).stream());
            }
            Ok(true)
        }
    }

    /// The enum-framing decision: a map marker (or a fixarray marker) gives
    /// a container length, and a container of exactly one entry opens a
    /// variant with a payload; a length other than one is a mismatch; any
    /// other marker is a bare, payload-free variant identifier left in
    /// place.
    pub fn read_enum_shape(&mut self) -> (r: Result<EnumShape, Error>)
        requires
            old(self).wf(),
        ensures
            final(self).wf(),
            final(self).spec_config() == old(self).spec_config(),
            final(self).remaining_depth() == old(self).remaining_depth(),
            old(self).stream().len() == 0 ==> (r matches Err(e) && e matches
                Error::InvalidValueRead(_) && final(self).stream() == old(self).stream()),
            old(self).stream().len() > 0 ==> {
                let m = marker_of_byte(old(self).stream().first());
                match m {
                    Marker::FixMap(n) => if n == 1 {
                        r == Ok::<EnumShape, Error>(EnumShape::Compound) && final(self).stream()
                            == old(self).stream().skip(1)
                    } else {
                        r == Err::<EnumShape, Error>(Error::LengthMismatch(n as u32)) && final(self).stream() == old(self).stream()
                    },
                    Marker::FixArray(n) => if n == 1 {
                        r == Ok::<EnumShape, Error>(EnumShape::Compound) && final(self).stream()
                            == old(self).stream().skip(1)
                    } else {
                        r == Err::<EnumShape, Error>(Error::LengthMismatch(n as u32)) && final(self).stream() == old(self).stream()
                    },
                    Marker::Map16 => if old(self).stream().len() >= 3 {
                        let n = be_val(old(self).stream().subrange(1, 3));
                        if n == 1 {
                            r == Ok::<EnumShape, Error>(EnumShape::Compound) && final(self).stream() == old(self).stream().skip(3)
                        } else {
                            r == Err::<EnumShape, Error>(Error::LengthMismatch(n as u32)) && final(self).stream() == seq![old(self).stream().first()] + old(self).stream().skip(3)
                        }
                    } else {
                        r == Ok::<EnumShape, Error>(EnumShape::Unit) && final(self).stream() == old(self).stream()
                    },
                    Marker::Map32 => if old(self).stream().len() >= 5 {
                        let n = be_val(old(self).stream().subrange(1, 5));
                        if n == 1 {
                            r == Ok::<EnumShape, Error>(EnumShape::Compound) && final(self).stream() == old(self).stream().skip(5)
                        } else {
                            r == Err::<EnumShape, Error>(Error::LengthMismatch(n as u32)) && final(self).stream() == seq![old(self).stream().first()] + old(self).stream().skip(5)
                        }
                    } else {
                        r == Ok::<EnumShape, Error>(EnumShape::Unit) && final(self).stream() == old(self).stream()
                    },
                    _ => r == Ok::<EnumShape, Error>(EnumShape::Unit) && final(self).stream()
                        == old(self).stream(),
                }
            },
    {
        let ghost s0 = old(self).stream();
        let m = match self.take_or_read_marker() {
            Ok(m) => m,
            Err(e) => {
                return Err(e);
            },
        };
        proof {
            crate::marker::lemma_byte_marker_byte(s0.first());
        }
        match m {
            Marker::FixMap(n) => {
                if n == 1 {
                    Ok(EnumShape::Compound)
                } else {
                    self.stash_marker(m);
                    proof {
                        assert(final(self).stream() =~= s0);
                    }
                    Err(Error::LengthMismatch(n as u32))
                }
            },
            Marker::FixArray(n) => {
                if n == 1 {
                    Ok(EnumShape::Compound)
                } else {
                    self.stash_marker(m);
                    proof {
                        assert(final(self).stream() =~= s0);
                    }
                    Err(Error::LengthMismatch(n as u32))
                }
            },
            Marker::Map16 => {
                match read_be_num(&mut self.rd, 2) {
                    Ok(n) => {
                        proof {
                            assert(old(self).stream().skip(1).subrange(0, 2) =~= old(self).stream().subrange(1, 3));
                        }
                        if n == 1 {
                            proof {
                                assert(old(self).stream().skip(1).skip(2) =~= old(self).stream().skip(3));
                            }
                            Ok(EnumShape::Compound)
                        } else {
                            self.stash_marker(m);
                            proof {
                                assert(final(self).stream() =~= seq![s0.first()] + s0.skip(3));
                            }
                            Err(Error::LengthMismatch(n as u32))
                        }
                    },
                    Err(_) => {
                        self.stash_marker(m);
                        proof {
                            assert(final(self).stream() =~= s0);
                        }
                        Ok(EnumShape::Unit)
                    },
                }
            },
            Marker::Map32 => {
                match read_be_num(&mut self.rd, 4) {
                    Ok(n) => {
                        proof {
                            lemma_pow256_units();
                            assert(old(self).stream().skip(1).subrange(0, 4) =~= old(self).stream().subrange(1, 5));
                        }
                        if n == 1 {
                            proof {
                                assert(old(self).stream().skip(1).skip(4) =~= old(self).stream().skip(5));
                            }
                            Ok(EnumShape::Compound)
                        } else {
                            self.stash_marker(m);
                            proof {
                                assert(final(self).stream() =~= seq![s0.first()] + s0.skip(5));
                            }
                            Err(Error::LengthMismatch(n as u32))
                        }
                    },
                    Err(_) => {
                        self.stash_marker(m);
                        proof {
                            assert(final(self).stream() =~= s0);
                        }
                        Ok(EnumShape::Unit)
                    },
                }
            },
            _ => {
                self.stash_marker(m);
                proof {
                    assert(final(self).stream() =~= s0);
                }
                Ok(EnumShape::Unit)
            },
        }
    }

    /// The unit-struct decision: `nil` and the empty array are accepted and
    /// consumed; anything else is left in place, for decoding as a value.
    pub fn accept_unit(&mut self) -> (r: Result<bool, Error>)
        requires
            old(self).wf(),
        ensures
            final(self).wf(),
            final(self).spec_config() == old(self).spec_config(),
            final(self).remaining_depth() == old(self).remaining_depth(),
            old(self).stream().len() == 0 <==> r is Err,
            r matches Err(e) ==> (e matches Error::InvalidValueRead(_)) && final(self).stream()
                == old(self).stream(),
            r matches Ok(unit) ==> {
                &&& unit == (old(self).stream().first() == 0xc0 || old(self).stream().first()
                    == 0x90)
                &&& unit ==> final(self).stream() == old(self).stream().skip(1)
                &&& !unit ==> final(self).stream() == old(self).stream()
            },
    {
        let m = match self.take_or_read_marker() {
            Ok(m) => m,
            Err(e) => {
                return Err(e);
            },
        };
        proof {
            crate::marker::lemma_byte_marker_byte(old(self).stream().first());
        }
        let unit = match m {
            Marker::Null => true,
            Marker::FixArray(n) => n == 0,
            _ => false,
        };
        if unit {
            Ok(true)
        } else {
            self.stash_marker(m);
            proof {
                assert(final(self).stream() =~= old(self).stream());
            }
            Ok(false)
        }
    }
}

impl<'de, C: SerializerConfig> Deserializer<'de, C> {
    /// Reads a 128-bit payload: a `Bin8` value whose length is exactly 16,
    /// interpreted as a big-endian unsigned integer. Any other marker is a
    /// type mismatch; any other length is a length mismatch.
    pub fn read_u128(&mut self) -> (r: Result<u128, Error>)
        requires
            old(self).wf(),
        ensures
            final(self).wf(),
            final(self).spec_config() == old(self).spec_config(),
            final(self).remaining_depth() == old(self).remaining_depth(),
            ({
                let s = old(self).stream();
                if s.len() == 0 {
                    r matches Err(e) && (e matches Error::InvalidValueRead(_))
                } else if marker_of_byte(s.first()) != Marker::Bin8 {
                    r == Err::<u128, Error>(Error::TypeMismatch(marker_of_byte(s.first())))
                } else if s.len() < 2 {
                    r matches Err(e) && (e matches Error::InvalidValueRead(_))
                } else if s[1] != 16 {
                    r == Err::<u128, Error>(Error::LengthMismatch(16))
                } else if s.len() < 18 {
                    r matches Err(e) && (e matches Error::InvalidValueRead(_))
                } else {
                    r == Ok::<u128, Error>(be_val(s.subrange(2, 18)) as u128) && final(self).stream() == s.skip(18)
                }
            }),
    {
        let ghost s0 = old(self).stream();
        let m = match self.take_or_read_marker() {
            Ok(m) => m,
            Err(e) => {
                return Err(e);
            },
        };
        proof {
            crate::marker::lemma_byte_marker_byte(s0.first());
        }
        match m {
            Marker::Bin8 => {},
            _ => {
                return Err(Error::TypeMismatch(m));
            },
        }
        let len = match self.rd.read_byte() {
            Ok(b) => b,
            Err(e) => {
                return Err(data_read_err(e));
            },
        };
        proof {
            assert(s0.skip(1).first() == s0[1]);
        }
        if len != 16 {
            return Err(Error::LengthMismatch(16));
        }
        let sl = match self.rd.read_bytes(16) {
            Ok(sl) => sl,
            Err(e) => {
                return Err(data_read_err(e));
            },
        };
        proof {
            assert(s0.skip(1).skip(1) =~= s0.skip(2));
            assert(s0.skip(2).subrange(0, 16) =~= s0.subrange(2, 18));
            assert(sl@ == s0.subrange(2, 18));
            assert(s0.skip(2).skip(16) =~= s0.skip(18));
            lemma_be_bytes_of_val(sl@);
            lemma_pow256_units();
        }
        Ok(read_be_u128(sl))
    }

    /// Reads a 128-bit payload as a signed big-endian integer, with the
    /// same framing rules as [`Self::read_u128`].
    pub fn read_i128(&mut self) -> (r: Result<i128, Error>)
        requires
            old(self).wf(),
        ensures
            final(self).wf(),
            final(self).spec_config() == old(self).spec_config(),
            final(self).remaining_depth() == old(self).remaining_depth(),
            ({
                let s = old(self).stream();
                if s.len() == 0 {
                    r matches Err(e) && (e matches Error::InvalidValueRead(_))
                } else if marker_of_byte(s.first()) != Marker::Bin8 {
                    r == Err::<i128, Error>(Error::TypeMismatch(marker_of_byte(s.first())))
                } else if s.len() < 2 {
                    r matches Err(e) && (e matches Error::InvalidValueRead(_))
                } else if s[1] != 16 {
                    r == Err::<i128, Error>(Error::LengthMismatch(16))
                } else if s.len() < 18 {
                    r matches Err(e) && (e matches Error::InvalidValueRead(_))
                } else {
                    r == Ok::<i128, Error>(signed_be_val(s.subrange(2, 18)) as i128) && final(self).stream() == s.skip(18)
                }
            }),
    {
        let ghost s0 = old(self).stream();
        let u = match self.read_u128() {
            Ok(u) => u,
            Err(e) => {
                return Err(e);
            },
        };
        proof {
            lemma_be_bytes_of_val(s0.subrange(2, 18));
            lemma_pow256_units();
            assert(s0.subrange(2, 18).len() == 16);
        }
        if u >= 0x80000000000000000000000000000000u128 {
            let w: u128 = u - 0x80000000000000000000000000000000u128;
            let sv: i128 = (w as i128) + (-0x80000000000000000000000000000000i128);
            Ok(sv)
        } else {
            Ok(u as i128)
        }
    }
}

/// Destructures an ext payload read into its tag and bytes.
fn ext_payload_pair<'de>(rd: &mut ReadRefReader<'de>, len: u32) -> (r: Result<
    (i8, &'de [u8]),
    Error,
>)
    ensures
        match r {
            Ok(tp) => (spec_decode_ext(old(rd)@, 0, len as int, 2) matches Ok(p) && p.0
                == ValueModel::Ext(tp.0, tp.1@) && final(rd)@ == old(rd)@.skip(p.1)),
            Err(e) => (spec_decode_ext(old(rd)@, 0, len as int, 2) matches Err(k)
                && failure_matches(e, k) && k == DecodeFailure::Truncated),
        },
{
    match read_ext_payload(rd, len, 2) {
        Ok(v) => match v {
            Value::Ext(t, p) => Ok((t, p)),
            _ => vstd::pervasive::unreached(),
        },
        Err(e) => Err(e),
    }
}

impl<'de, C: SerializerConfig> Deserializer<'de, C> {
    /// Reads an ext value for the reserved newtype struct: the marker must
    /// be one of the ext family, whose length header then frames the tag
    /// byte and the opaque payload. No depth level is charged on this path.
    #[verifier::rlimit(100)]
    #[verifier::spinoff_prover]
    pub fn read_ext(&mut self) -> (r: Result<(i8, &'de [u8]), Error>)
        requires
            old(self).wf(),
        ensures
            final(self).wf(),
            final(self).spec_config() == old(self).spec_config(),
            final(self).remaining_depth() == old(self).remaining_depth(),
            ({
                let s = old(self).stream();
                match r {
                    Ok(tp) => {
                        &&& s.len() >= 1
                        &&& is_ext_marker(marker_of_byte(s.first()))
                        &&& (spec_decode_body(marker_of_byte(s.first()), s.skip(1), 2) matches Ok(
                            p,
                        ) && p.0 == ValueModel::Ext(tp.0, tp.1@) && final(self).stream() == s.skip(
                            1 + p.1,
                        ))
                    },
                    Err(e) => {
                        if s.len() == 0 {
                            e matches Error::InvalidValueRead(_)
                        } else if !is_ext_marker(marker_of_byte(s.first())) {
                            e == Error::TypeMismatch(marker_of_byte(s.first()))
                        } else {
                            (e matches Error::InvalidValueRead(_)) && (spec_decode_body(
                                marker_of_byte(s.first()),
                                s.skip(1),
                                2,
                            ) is Err)
                        }
                    },
                }
            }),
    {
        let ghost s0 = old(self).stream();
        let m = match self.take_or_read_marker() {
            Ok(m) => m,
            Err(e) => {
                return Err(e);
            },
        };
        proof {
            crate::marker::lemma_byte_marker_byte(s0.first());
        }
        let ghost mid = s0.skip(1);
        let r = match m {
            Marker::FixExt1 => ext_payload_pair(&mut self.rd, 1),
            Marker::FixExt2 => ext_payload_pair(&mut self.rd, 2),
            Marker::FixExt4 => ext_payload_pair(&mut self.rd, 4),
            Marker::FixExt8 => ext_payload_pair(&mut self.rd, 8),
            Marker::FixExt16 => ext_payload_pair(&mut self.rd, 16),
            Marker::Ext8 => {
                match read_be_num(&mut self.rd, 1) {
                    Ok(len) => {
                        proof {
                            lemma_pow256_units();
                            lemma_be_val_single(mid);
                            lemma_ext_shift(mid, 1, len as int, 2);
                        }
                        ext_payload_pair(&mut self.rd, len as u32)
                    },
                    Err(e) => Err(e),
                }
            },
            Marker::Ext16 => {
                match read_be_num(&mut self.rd, 2) {
                    Ok(len) => {
                        proof {
                            lemma_pow256_units();
                            lemma_ext_shift(mid, 2, len as int, 2);
                        }
                        ext_payload_pair(&mut self.rd, len as u32)
                    },
                    Err(e) => Err(e),
                }
            },
            Marker::Ext32 => {
                match read_be_num(&mut self.rd, 4) {
                    Ok(len) => {
                        proof {
                            lemma_pow256_units();
                            lemma_ext_shift(mid, 4, len as int, 2);
                        }
                        ext_payload_pair(&mut self.rd, len as u32)
                    },
                    Err(e) => Err(e),
                }
            },
            _ => {
                return Err(Error::TypeMismatch(m));
            },
        };
        proof {
            if r is Ok {
                let p = spec_decode_body(m, mid, 2)->Ok_0;
                lemma_decode_body_len(m, mid, 2);
                assert(s0.skip(1).skip(p.1) =~= s0.skip(1 + p.1));
            }
        }
        r
    }
}

/// The remaining-elements counter of a container being handed to a
/// consumer: elements are taken one at a time, and closing the container
/// with elements still owed reports how many were actually consumed.
pub struct RemainingCount {
    total: u32,
    left: u32,
}

impl RemainingCount {
    /// The declared length of the container.
    pub closed spec fn spec_total(&self) -> u32 {
        self.total
    }

    /// How many elements have not been taken yet.
    pub closed spec fn spec_left(&self) -> u32 {
        self.left
    }

    pub closed spec fn wf(&self) -> bool {
        self.left <= self.total
    }

    /// Starts a counter for a container of `len` elements.
    pub fn new(len: u32) -> (r: Self)
        ensures
            r.wf(),
            r.spec_total() == len,
            r.spec_left() == len,
    {
        RemainingCount { total: len, left: len }
    }

    /// Takes one element if any is left: the guard that stops a consumer
    /// from reading past the declared length.
    pub fn try_take(&mut self) -> (r: bool)
        ensures
            old(self).wf() ==> final(self).wf(),
            final(self).spec_total() == old(self).spec_total(),
            r == (old(self).spec_left() > 0),
            r ==> final(self).spec_left() == old(self).spec_left() - 1,
            !r ==> final(self).spec_left() == old(self).spec_left(),
    {
        if self.left > 0 {
            self.left = self.left - 1;
            true
        } else {
            false
        }
    }

    /// How many elements are left, for size hints.
    pub fn remaining(&self) -> (r: u32)
        ensures
            r == self.spec_left(),
    {
        self.left
    }

    /// The length-mismatch policy: closing the container succeeds exactly
    /// when every declared element was consumed, and otherwise reports the
    /// number of elements the consumer did take.
    pub fn finish(&self) -> (r: Result<(), Error>)
        requires
            self.wf(),
        ensures
            r is Ok <==> self.spec_left() == 0,
            self.spec_left() > 0 ==> r == Err::<(), Error>(
                Error::LengthMismatch((self.spec_total() - self.spec_left()) as u32),
            ),
    {
        if self.left == 0 {
            Ok(())
        } else {
            Err(Error::LengthMismatch(self.total - self.left))
        }
    }
}

impl Marker {
    /// Whether this marker is `nil`.
    pub fn is_null(&self) -> (r: bool)
        ensures
            r == (*self == Marker::Null),
    {
        match *self {
            Marker::Null => true,
            _ => false,
        }
    }
}

} // verus!
