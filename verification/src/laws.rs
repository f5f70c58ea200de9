//! The laws that tie the encoder and the decoder together.

use vstd::prelude::*;
use crate::decode::{
    spec_decode, spec_decode_body, spec_decode_elems, spec_decode_pairs, spec_decode_ext,
    spec_decode_raw, spec_decode_array, spec_decode_map, DecodeFailure, lemma_decode_len,
    lemma_decode_body_len, lemma_decode_elems_len, lemma_decode_pairs_len,
};
use crate::encode::{
    value_enc, values_enc, pairs_enc, byte_of_i8, struct_len_enc, struct_field_enc,
};
use crate::marker::{Marker, marker_of_byte};
use crate::value::{
    ValueModel, wf_value, wf_values, wf_pairs, nesting, nesting_values, nesting_pairs,
};
use crate::wire::{
    be_bytes, be_val, pow256, lemma_be_bytes_len, lemma_be_val_of_bytes, lemma_pow256_units,
};

verus! {

#[verifier::rlimit(100)]
#[verifier::spinoff_prover]
proof fn lemma_rt_array(v: ValueModel, rest: Seq<u8>, depth: nat)
    requires
        wf_value(v),
        nesting(v) < depth,
        v matches ValueModel::Array(_),
    ensures
        spec_decode(value_enc(v) + rest, depth) == Ok::<(ValueModel, int), DecodeFailure>(
            (v, value_enc(v).len() as int),
        ),
    decreases v, 0nat,
{
    lemma_pow256_units();
    let b = value_enc(v) + rest;
    match v {
        ValueModel::Array(es) => {
            let n = es.len() as int;
            assert(nesting_values(es) < depth - 1);
            if n < 0x10 {
                assert(b.first() == (0x90 + n) as u8);
                assert(marker_of_byte(b.first()) == crate::marker::Marker::FixArray(n as u8));
                assert(b.skip(1) =~= values_enc(es) + rest);
                assert(b.skip(1).skip(0) =~= values_enc(es) + rest);
                lemma_decode_elems_of_encode(es, rest, (depth - 1) as nat);
            } else if n < 0x10000 {
                lemma_be_bytes_len(n, 2);
                lemma_be_val_of_bytes(n, 2);
                assert(b.first() == 0xdc);
                assert(b.skip(1) =~= be_bytes(n, 2) + values_enc(es) + rest);
                assert(b.skip(1).subrange(0, 2) =~= be_bytes(n, 2));
                assert(b.skip(1).skip(2) =~= values_enc(es) + rest);
                lemma_decode_elems_of_encode(es, rest, (depth - 1) as nat);
            } else {
                lemma_be_bytes_len(n, 4);
                lemma_be_val_of_bytes(n, 4);
                assert(b.first() == 0xdd);
                assert(b.skip(1) =~= be_bytes(n, 4) + values_enc(es) + rest);
                assert(b.skip(1).subrange(0, 4) =~= be_bytes(n, 4));
                assert(b.skip(1).skip(4) =~= values_enc(es) + rest);
                lemma_decode_elems_of_encode(es, rest, (depth - 1) as nat);
            }
        },
        _ => {},
    }
}

#[verifier::rlimit(100)]
#[verifier::spinoff_prover]
proof fn lemma_rt_map(v: ValueModel, rest: Seq<u8>, depth: nat)
    requires
        wf_value(v),
        nesting(v) < depth,
        v matches ValueModel::Mapping(_),
    ensures
        spec_decode(value_enc(v) + rest, depth) == Ok::<(ValueModel, int), DecodeFailure>(
            (v, value_enc(v).len() as int),
        ),
    decreases v, 0nat,
{
    lemma_pow256_units();
    let b = value_enc(v) + rest;
    match v {
        ValueModel::Mapping(ps) => {
            let n = ps.len() as int;
            assert(nesting_pairs(ps) < depth - 1);
            if n < 0x10 {
                assert(b.first() == (0x80 + n) as u8);
                assert(marker_of_byte(b.first()) == crate::marker::Marker::FixMap(n as u8));
                assert(b.skip(1) =~= pairs_enc(ps) + rest);
                assert(b.skip(1).skip(0) =~= pairs_enc(ps) + rest);
                lemma_decode_pairs_of_encode(ps, rest, (depth - 1) as nat);
            } else if n < 0x10000 {
                lemma_be_bytes_len(n, 2);
                lemma_be_val_of_bytes(n, 2);
                assert(b.first() == 0xde);
                assert(b.skip(1) =~= be_bytes(n, 2) + pairs_enc(ps) + rest);
                assert(b.skip(1).subrange(0, 2) =~= be_bytes(n, 2));
                assert(b.skip(1).skip(2) =~= pairs_enc(ps) + rest);
                lemma_decode_pairs_of_encode(ps, rest, (depth - 1) as nat);
            } else {
                lemma_be_bytes_len(n, 4);
                lemma_be_val_of_bytes(n, 4);
                assert(b.first() == 0xdf);
                assert(b.skip(1) =~= be_bytes(n, 4) + pairs_enc(ps) + rest);
                assert(b.skip(1).subrange(0, 4) =~= be_bytes(n, 4));
                assert(b.skip(1).skip(4) =~= pairs_enc(ps) + rest);
                lemma_decode_pairs_of_encode(ps, rest, (depth - 1) as nat);
            }
        },
        _ => {},
    }
}

/// Round trip: decoding the encoding of any well-formed value, with enough
/// depth for its nesting and whatever bytes follow, yields the value back
/// and consumes exactly its encoding.
proof fn lemma_rt_uint(v: ValueModel, rest: Seq<u8>, depth: nat)
    requires
        wf_value(v),
        nesting(v) < depth,
        v matches ValueModel::Uint(u),
    ensures
        spec_decode(value_enc(v) + rest, depth) == Ok::<(ValueModel, int), DecodeFailure>(
            (v, value_enc(v).len() as int),
        ),
{
    lemma_pow256_units();
    let b = value_enc(v) + rest;
    match v {
        ValueModel::Uint(u) => {
            if u < 0x80 {
                assert(b.first() == u as u8);
                assert(b.skip(1) =~= rest);
            } else if u < 0x100 {
                assert(b.first() == 0xcc);
                assert(b.skip(1) =~= seq![u as u8] + rest);
                assert(b.skip(1)[0] == u as u8);
            } else if u < 0x10000 {
                lemma_be_bytes_len(u as int, 2);
                lemma_be_val_of_bytes(u as int, 2);
                assert(b.first() == 0xcd);
                assert(b.skip(1) =~= be_bytes(u as int, 2) + rest);
                assert(b.skip(1).subrange(0, 2) =~= be_bytes(u as int, 2));
            } else if u < 0x100000000 {
                lemma_be_bytes_len(u as int, 4);
                lemma_be_val_of_bytes(u as int, 4);
                assert(b.first() == 0xce);
                assert(b.skip(1) =~= be_bytes(u as int, 4) + rest);
                assert(b.skip(1).subrange(0, 4) =~= be_bytes(u as int, 4));
            } else {
                lemma_be_bytes_len(u as int, 8);
                lemma_be_val_of_bytes(u as int, 8);
                assert(b.first() == 0xcf);
                assert(b.skip(1) =~= be_bytes(u as int, 8) + rest);
                assert(b.skip(1).subrange(0, 8) =~= be_bytes(u as int, 8));
            }
        },
        _ => {},
    }
}

proof fn lemma_rt_int(v: ValueModel, rest: Seq<u8>, depth: nat)
    requires
        wf_value(v),
        nesting(v) < depth,
        v matches ValueModel::Int(i),
    ensures
        spec_decode(value_enc(v) + rest, depth) == Ok::<(ValueModel, int), DecodeFailure>(
            (v, value_enc(v).len() as int),
        ),
{
    lemma_pow256_units();
    let b = value_enc(v) + rest;
    match v {
        ValueModel::Int(i) => {
            if i >= -32 {
                assert(b.first() == (i + 0x100) as u8);
                assert(b.skip(1) =~= rest);
            } else if i >= -0x80 {
                assert(b.first() == 0xd0);
                assert(b.skip(1) =~= seq![(i + 0x100) as u8] + rest);
                assert(b.skip(1).subrange(0, 1) =~= seq![(i + 0x100) as u8]);
                assert(be_val(seq![(i + 0x100) as u8]) == i + 0x100) by {
                    reveal_with_fuel(be_val, 2);
                    assert(seq![(i + 0x100) as u8].drop_last() =~= Seq::<u8>::empty());
                }
            } else if i >= -0x8000 {
                lemma_be_bytes_len(i + 0x10000, 2);
                lemma_be_val_of_bytes(i + 0x10000, 2);
                assert(b.first() == 0xd1);
                assert(b.skip(1) =~= be_bytes(i + 0x10000, 2) + rest);
                assert(b.skip(1).subrange(0, 2) =~= be_bytes(i + 0x10000, 2));
            } else if i >= -0x80000000 {
                lemma_be_bytes_len(i + 0x100000000, 4);
                lemma_be_val_of_bytes(i + 0x100000000, 4);
                assert(b.first() == 0xd2);
                assert(b.skip(1) =~= be_bytes(i + 0x100000000, 4) + rest);
                assert(b.skip(1).subrange(0, 4) =~= be_bytes(i + 0x100000000, 4));
            } else {
                lemma_be_bytes_len(i + 0x10000000000000000, 8);
                lemma_be_val_of_bytes(i + 0x10000000000000000, 8);
                assert(b.first() == 0xd3);
                assert(b.skip(1) =~= be_bytes(i + 0x10000000000000000, 8) + rest);
                assert(b.skip(1).subrange(0, 8) =~= be_bytes(i + 0x10000000000000000, 8));
            }
        },
        _ => {},
    }
}

proof fn lemma_rt_str(v: ValueModel, rest: Seq<u8>, depth: nat)
    requires
        wf_value(v),
        nesting(v) < depth,
        v matches ValueModel::Str(sq),
    ensures
        spec_decode(value_enc(v) + rest, depth) == Ok::<(ValueModel, int), DecodeFailure>(
            (v, value_enc(v).len() as int),
        ),
{
    lemma_pow256_units();
    let b = value_enc(v) + rest;
    match v {
        ValueModel::Str(sq) => {
            let len = sq.len() as int;
            if len < 0x20 {
                assert(b.first() == (0xa0 + len) as u8);
                assert(marker_of_byte(b.first()) == crate::marker::Marker::FixStr(len as u8));
                assert(b.skip(1) =~= sq + rest);
                assert(b.skip(1).subrange(0, len) =~= sq);
            } else if len < 0x100 {
                assert(b.first() == 0xd9);
                assert(b.skip(1) =~= seq![len as u8] + sq + rest);
                assert(b.skip(1)[0] == len as u8);
                assert(b.skip(1).subrange(1, 1 + len) =~= sq);
            } else if len < 0x10000 {
                lemma_be_bytes_len(len, 2);
                lemma_be_val_of_bytes(len, 2);
                assert(b.first() == 0xda);
                assert(b.skip(1) =~= be_bytes(len, 2) + sq + rest);
                assert(b.skip(1).subrange(0, 2) =~= be_bytes(len, 2));
                assert(b.skip(1).subrange(2, 2 + len) =~= sq);
            } else {
                lemma_be_bytes_len(len, 4);
                lemma_be_val_of_bytes(len, 4);
                assert(b.first() == 0xdb);
                assert(b.skip(1) =~= be_bytes(len, 4) + sq + rest);
                assert(b.skip(1).subrange(0, 4) =~= be_bytes(len, 4));
                assert(b.skip(1).subrange(4, 4 + len) =~= sq);
            }
        },
        _ => {},
    }
}

proof fn lemma_rt_bin(v: ValueModel, rest: Seq<u8>, depth: nat)
    requires
        wf_value(v),
        nesting(v) < depth,
        v matches ValueModel::Bin(sq),
    ensures
        spec_decode(value_enc(v) + rest, depth) == Ok::<(ValueModel, int), DecodeFailure>(
            (v, value_enc(v).len() as int),
        ),
{
    lemma_pow256_units();
    let b = value_enc(v) + rest;
    match v {
        ValueModel::Bin(sq) => {
            let len = sq.len() as int;
            if len < 0x100 {
                assert(b.first() == 0xc4);
                assert(b.skip(1) =~= seq![len as u8] + sq + rest);
                assert(b.skip(1)[0] == len as u8);
                assert(b.skip(1).subrange(1, 1 + len) =~= sq);
            } else if len < 0x10000 {
                lemma_be_bytes_len(len, 2);
                lemma_be_val_of_bytes(len, 2);
                assert(b.first() == 0xc5);
                assert(b.skip(1) =~= be_bytes(len, 2) + sq + rest);
                assert(b.skip(1).subrange(0, 2) =~= be_bytes(len, 2));
                assert(b.skip(1).subrange(2, 2 + len) =~= sq);
            } else {
                lemma_be_bytes_len(len, 4);
                lemma_be_val_of_bytes(len, 4);
                assert(b.first() == 0xc6);
                assert(b.skip(1) =~= be_bytes(len, 4) + sq + rest);
                assert(b.skip(1).subrange(0, 4) =~= be_bytes(len, 4));
                assert(b.skip(1).subrange(4, 4 + len) =~= sq);
            }
        },
        _ => {},
    }
}

proof fn lemma_rt_ext(v: ValueModel, rest: Seq<u8>, depth: nat)
    requires
        wf_value(v),
        nesting(v) < depth,
        v matches ValueModel::Ext(t, sq),
    ensures
        spec_decode(value_enc(v) + rest, depth) == Ok::<(ValueModel, int), DecodeFailure>(
            (v, value_enc(v).len() as int),
        ),
{
    lemma_pow256_units();
    let b = value_enc(v) + rest;
    match v {
        ValueModel::Ext(t, sq) => {
            let len = sq.len() as int;
            let tb = byte_of_i8(t);
            assert(be_val(seq![tb]) == tb) by {
                reveal_with_fuel(be_val, 2);
                assert(seq![tb].drop_last() =~= Seq::<u8>::empty());
            }
            if len == 1 || len == 2 || len == 4 || len == 8 || len == 16 {
                assert(b.skip(1) =~= seq![tb] + sq + rest);
                assert(b.skip(1).subrange(0, 1) =~= seq![tb]);
                assert(b.skip(1).subrange(1, 1 + len) =~= sq);
            } else if len < 0x100 {
                assert(b.first() == 0xc7);
                assert(b.skip(1) =~= seq![len as u8] + seq![tb] + sq + rest);
                assert(b.skip(1)[0] == len as u8);
                assert(b.skip(1).subrange(1, 2) =~= seq![tb]);
                assert(b.skip(1).subrange(2, 2 + len) =~= sq);
            } else if len < 0x10000 {
                lemma_be_bytes_len(len, 2);
                lemma_be_val_of_bytes(len, 2);
                assert(b.first() == 0xc8);
                assert(b.skip(1) =~= be_bytes(len, 2) + seq![tb] + sq + rest);
                assert(b.skip(1).subrange(0, 2) =~= be_bytes(len, 2));
                assert(b.skip(1).subrange(2, 3) =~= seq![tb]);
                assert(b.skip(1).subrange(3, 3 + len) =~= sq);
            } else {
                lemma_be_bytes_len(len, 4);
                lemma_be_val_of_bytes(len, 4);
                assert(b.first() == 0xc9);
                assert(b.skip(1) =~= be_bytes(len, 4) + seq![tb] + sq + rest);
                assert(b.skip(1).subrange(0, 4) =~= be_bytes(len, 4));
                assert(b.skip(1).subrange(4, 5) =~= seq![tb]);
                assert(b.skip(1).subrange(5, 5 + len) =~= sq);
            }
        },
        _ => {},
    }
}

/// Round trip: decoding the encoding of any well-formed value, with enough
/// depth for its nesting and whatever bytes follow, yields the value back
/// and consumes exactly its encoding.
pub proof fn lemma_decode_of_encode(v: ValueModel, rest: Seq<u8>, depth: nat)
    requires
        wf_value(v),
        nesting(v) < depth,
    ensures
        spec_decode(value_enc(v) + rest, depth) == Ok::<(ValueModel, int), DecodeFailure>(
            (v, value_enc(v).len() as int),
        ),
    decreases v, 1nat,
{
    lemma_pow256_units();
    let b = value_enc(v) + rest;
    match v {
        ValueModel::Nil => {
            assert(b.first() == 0xc0);
            assert(b.skip(1) =~= rest);
        },
        ValueModel::Bool(x) => {
            assert(b.skip(1) =~= rest);
        },
        ValueModel::Uint(u) => {
            lemma_rt_uint(v, rest, depth);
        },
        ValueModel::Int(i) => {
            lemma_rt_int(v, rest, depth);
        },
        ValueModel::F32Bits(x) => {
            lemma_be_bytes_len(x as int, 4);
            lemma_be_val_of_bytes(x as int, 4);
            assert(b.first() == 0xca);
            assert(b.skip(1) =~= be_bytes(x as int, 4) + rest);
            assert(b.skip(1).subrange(0, 4) =~= be_bytes(x as int, 4));
        },
        ValueModel::F64Bits(x) => {
            lemma_be_bytes_len(x as int, 8);
            lemma_be_val_of_bytes(x as int, 8);
            assert(b.first() == 0xcb);
            assert(b.skip(1) =~= be_bytes(x as int, 8) + rest);
            assert(b.skip(1).subrange(0, 8) =~= be_bytes(x as int, 8));
        },
        ValueModel::Str(sq) => {
            lemma_rt_str(v, rest, depth);
        },
        ValueModel::Bin(sq) => {
            lemma_rt_bin(v, rest, depth);
        },
        ValueModel::Ext(t, sq) => {
            lemma_rt_ext(v, rest, depth);
        },
        ValueModel::Array(es) => {
            lemma_rt_array(v, rest, depth);
        },
        ValueModel::Mapping(ps) => {
            lemma_rt_map(v, rest, depth);
        },
    }
}

/// Round trip for a run of elements.
pub proof fn lemma_decode_elems_of_encode(es: Seq<ValueModel>, rest: Seq<u8>, depth: nat)
    requires
        wf_values(es),
        nesting_values(es) < depth,
    ensures
        spec_decode_elems(values_enc(es) + rest, es.len(), depth) == Ok::<
            (Seq<ValueModel>, int),
            DecodeFailure,
        >((es, values_enc(es).len() as int)),
    decreases es, 1nat,
{
    if es.len() == 0 {
        assert(values_enc(es) + rest =~= rest);
        assert(es =~= Seq::<ValueModel>::empty());
    } else {
        let hd = es.first();
        let tl = es.drop_first();
        let b = values_enc(es) + rest;
        assert(b =~= value_enc(hd) + (values_enc(tl) + rest));
        lemma_decode_of_encode(hd, values_enc(tl) + rest, depth);
        assert(b.skip(value_enc(hd).len() as int) =~= values_enc(tl) + rest);
        lemma_decode_elems_of_encode(tl, rest, depth);
        assert(seq![hd] + tl =~= es);
    }
}

/// Round trip for a run of key-value pairs.
pub proof fn lemma_decode_pairs_of_encode(
    ps: Seq<(ValueModel, ValueModel)>,
    rest: Seq<u8>,
    depth: nat,
)
    requires
        wf_pairs(ps),
        nesting_pairs(ps) < depth,
    ensures
        spec_decode_pairs(pairs_enc(ps) + rest, ps.len(), depth) == Ok::<
            (Seq<(ValueModel, ValueModel)>, int),
            DecodeFailure,
        >((ps, pairs_enc(ps).len() as int)),
    decreases ps, 1nat,
{
    if ps.len() == 0 {
        assert(pairs_enc(ps) + rest =~= rest);
        assert(ps =~= Seq::<(ValueModel, ValueModel)>::empty());
    } else {
        let k = ps.first().0;
        let v = ps.first().1;
        let tl = ps.drop_first();
        let b = pairs_enc(ps) + rest;
        assert(b =~= value_enc(k) + (value_enc(v) + (pairs_enc(tl) + rest)));
        lemma_decode_of_encode(k, value_enc(v) + (pairs_enc(tl) + rest), depth);
        assert(b.skip(value_enc(k).len() as int) =~= value_enc(v) + (pairs_enc(tl) + rest));
        lemma_decode_of_encode(v, pairs_enc(tl) + rest, depth);
        assert(b.skip(value_enc(k).len() + value_enc(v).len() as int) =~= pairs_enc(tl) + rest);
        lemma_decode_pairs_of_encode(tl, rest, depth);
        assert(seq![(k, v)] + tl =~= ps);
    }
}

/// Depth protection: decoding the encoding of a container whose nesting
/// reaches or exceeds the allowed depth fails with the depth-limit error,
/// whatever bytes follow. In particular any input nested strictly deeper
/// than the configured maximum is rejected this way.
pub proof fn lemma_depth_limit(v: ValueModel, rest: Seq<u8>, depth: nat)
    requires
        wf_value(v),
        nesting(v) >= depth,
        nesting(v) >= 1,
    ensures
        spec_decode(value_enc(v) + rest, depth) == Err::<(ValueModel, int), DecodeFailure>(
            DecodeFailure::DepthLimit,
        ),
    decreases v, 1nat,
{
    lemma_pow256_units();
    let b = value_enc(v) + rest;
    match v {
        ValueModel::Ext(t, sq) => {
            let len = sq.len() as int;
            assert(depth <= 1);
            if len == 1 || len == 2 || len == 4 || len == 8 || len == 16 {
            } else if len < 0x100 {
                assert(b.first() == 0xc7);
                assert(b.skip(1).len() >= 1);
            } else if len < 0x10000 {
                lemma_be_bytes_len(len, 2);
                assert(b.first() == 0xc8);
                assert(b.skip(1).len() >= 2);
            } else {
                lemma_be_bytes_len(len, 4);
                assert(b.first() == 0xc9);
                assert(b.skip(1).len() >= 4);
            }
        },
        ValueModel::Array(es) => {
            lemma_dl_array(v, rest, depth);
        },
        ValueModel::Mapping(ps) => {
            lemma_dl_map(v, rest, depth);
        },
        _ => {},
    }
}

#[verifier::rlimit(100)]
#[verifier::spinoff_prover]
proof fn lemma_dl_array(v: ValueModel, rest: Seq<u8>, depth: nat)
    requires
        wf_value(v),
        nesting(v) >= depth,
        v matches ValueModel::Array(_),
    ensures
        spec_decode(value_enc(v) + rest, depth) == Err::<(ValueModel, int), DecodeFailure>(
            DecodeFailure::DepthLimit,
        ),
    decreases v, 0nat,
{
    lemma_pow256_units();
    let b = value_enc(v) + rest;
    match v {
        ValueModel::Array(es) => {
            let n = es.len() as int;
            if n < 0x10 {
                assert(b.first() == (0x90 + n) as u8);
                assert(marker_of_byte(b.first()) == crate::marker::Marker::FixArray(n as u8));
                assert(b.skip(1) =~= values_enc(es) + rest);
                assert(b.skip(1).skip(0) =~= values_enc(es) + rest);
            } else if n < 0x10000 {
                lemma_be_bytes_len(n, 2);
                lemma_be_val_of_bytes(n, 2);
                assert(b.first() == 0xdc);
                assert(b.skip(1) =~= be_bytes(n, 2) + values_enc(es) + rest);
                assert(b.skip(1).subrange(0, 2) =~= be_bytes(n, 2));
                assert(b.skip(1).skip(2) =~= values_enc(es) + rest);
            } else {
                lemma_be_bytes_len(n, 4);
                lemma_be_val_of_bytes(n, 4);
                assert(b.first() == 0xdd);
                assert(b.skip(1) =~= be_bytes(n, 4) + values_enc(es) + rest);
                assert(b.skip(1).subrange(0, 4) =~= be_bytes(n, 4));
                assert(b.skip(1).skip(4) =~= values_enc(es) + rest);
            }
            if depth > 1 {
                assert(nesting_values(es) >= depth - 1 >= 1);
                lemma_dl_elems(es, rest, (depth - 1) as nat);
            }
        },
        _ => {},
    }
}

#[verifier::rlimit(100)]
#[verifier::spinoff_prover]
proof fn lemma_dl_map(v: ValueModel, rest: Seq<u8>, depth: nat)
    requires
        wf_value(v),
        nesting(v) >= depth,
        v matches ValueModel::Mapping(_),
    ensures
        spec_decode(value_enc(v) + rest, depth) == Err::<(ValueModel, int), DecodeFailure>(
            DecodeFailure::DepthLimit,
        ),
    decreases v, 0nat,
{
    lemma_pow256_units();
    let b = value_enc(v) + rest;
    match v {
        ValueModel::Mapping(ps) => {
            let n = ps.len() as int;
            if n < 0x10 {
                assert(b.first() == (0x80 + n) as u8);
                assert(marker_of_byte(b.first()) == crate::marker::Marker::FixMap(n as u8));
                assert(b.skip(1) =~= pairs_enc(ps) + rest);
                assert(b.skip(1).skip(0) =~= pairs_enc(ps) + rest);
            } else if n < 0x10000 {
                lemma_be_bytes_len(n, 2);
                lemma_be_val_of_bytes(n, 2);
                assert(b.first() == 0xde);
                assert(b.skip(1) =~= be_bytes(n, 2) + pairs_enc(ps) + rest);
                assert(b.skip(1).subrange(0, 2) =~= be_bytes(n, 2));
                assert(b.skip(1).skip(2) =~= pairs_enc(ps) + rest);
            } else {
                lemma_be_bytes_len(n, 4);
                lemma_be_val_of_bytes(n, 4);
                assert(b.first() == 0xdf);
                assert(b.skip(1) =~= be_bytes(n, 4) + pairs_enc(ps) + rest);
                assert(b.skip(1).subrange(0, 4) =~= be_bytes(n, 4));
                assert(b.skip(1).skip(4) =~= pairs_enc(ps) + rest);
            }
            if depth > 1 {
                assert(nesting_pairs(ps) >= depth - 1 >= 1);
                lemma_dl_pairs(ps, rest, (depth - 1) as nat);
            }
        },
        _ => {},
    }
}

proof fn lemma_dl_elems(es: Seq<ValueModel>, rest: Seq<u8>, depth: nat)
    requires
        wf_values(es),
        nesting_values(es) >= depth,
        depth >= 1,
    ensures
        spec_decode_elems(values_enc(es) + rest, es.len(), depth) == Err::<
            (Seq<ValueModel>, int),
            DecodeFailure,
        >(DecodeFailure::DepthLimit),
    decreases es, 1nat,
{
    let hd = es.first();
    let tl = es.drop_first();
    let b = values_enc(es) + rest;
    assert(b =~= value_enc(hd) + (values_enc(tl) + rest));
    if nesting(hd) >= depth {
        lemma_depth_limit(hd, values_enc(tl) + rest, depth);
    } else {
        lemma_decode_of_encode(hd, values_enc(tl) + rest, depth);
        assert(b.skip(value_enc(hd).len() as int) =~= values_enc(tl) + rest);
        assert(nesting_values(tl) >= depth);
        lemma_dl_elems(tl, rest, depth);
    }
}

proof fn lemma_dl_pairs(ps: Seq<(ValueModel, ValueModel)>, rest: Seq<u8>, depth: nat)
    requires
        wf_pairs(ps),
        nesting_pairs(ps) >= depth,
        depth >= 1,
    ensures
        spec_decode_pairs(pairs_enc(ps) + rest, ps.len(), depth) == Err::<
            (Seq<(ValueModel, ValueModel)>, int),
            DecodeFailure,
        >(DecodeFailure::DepthLimit),
    decreases ps, 1nat,
{
    let k = ps.first().0;
    let v = ps.first().1;
    let tl = ps.drop_first();
    let b = pairs_enc(ps) + rest;
    assert(b =~= value_enc(k) + (value_enc(v) + (pairs_enc(tl) + rest)));
    if nesting(k) >= depth {
        lemma_depth_limit(k, value_enc(v) + (pairs_enc(tl) + rest), depth);
    } else {
        lemma_decode_of_encode(k, value_enc(v) + (pairs_enc(tl) + rest), depth);
        assert(b.skip(value_enc(k).len() as int) =~= value_enc(v) + (pairs_enc(tl) + rest));
        if nesting(v) >= depth {
            lemma_depth_limit(v, pairs_enc(tl) + rest, depth);
        } else {
            lemma_decode_of_encode(v, pairs_enc(tl) + rest, depth);
            assert(b.skip(value_enc(k).len() + value_enc(v).len() as int) =~= pairs_enc(tl)
                + rest);
            assert(nesting_pairs(tl) >= depth);
            lemma_dl_pairs(tl, rest, depth);
        }
    }
}

/// The marker the encoder chooses for a value: the smallest form that
/// carries it.
pub open spec fn marker_of_value(v: ValueModel) -> Marker {
    match v {
        ValueModel::Nil => Marker::Null,
        ValueModel::Bool(x) => if x {
            Marker::True
        } else {
            Marker::False
        },
        ValueModel::Uint(u) => if u < 0x80 {
            Marker::FixPos(u as u8)
        } else if u < 0x100 {
            Marker::U8
        } else if u < 0x10000 {
            Marker::U16
        } else if u < 0x100000000 {
            Marker::U32
        } else {
            Marker::U64
        },
        ValueModel::Int(i) => if i >= 0x100000000 {
            Marker::U64
        } else if i >= 0x10000 {
            Marker::U32
        } else if i >= 0x100 {
            Marker::U16
        } else if i >= 0x80 {
            Marker::U8
        } else if i >= 0 {
            Marker::FixPos(i as u8)
        } else if i >= -32 {
            Marker::FixNeg(i as i8)
        } else if i >= -0x80 {
            Marker::I8
        } else if i >= -0x8000 {
            Marker::I16
        } else if i >= -0x80000000 {
            Marker::I32
        } else {
            Marker::I64
        },
        ValueModel::F32Bits(_) => Marker::F32,
        ValueModel::F64Bits(_) => Marker::F64,
        ValueModel::Str(sq) => if sq.len() < 0x20 {
            Marker::FixStr(sq.len() as u8)
        } else if sq.len() < 0x100 {
            Marker::Str8
        } else if sq.len() < 0x10000 {
            Marker::Str16
        } else {
            Marker::Str32
        },
        ValueModel::Bin(sq) => if sq.len() < 0x100 {
            Marker::Bin8
        } else if sq.len() < 0x10000 {
            Marker::Bin16
        } else {
            Marker::Bin32
        },
        ValueModel::Array(es) => if es.len() < 0x10 {
            Marker::FixArray(es.len() as u8)
        } else if es.len() < 0x10000 {
            Marker::Array16
        } else {
            Marker::Array32
        },
        ValueModel::Mapping(ps) => if ps.len() < 0x10 {
            Marker::FixMap(ps.len() as u8)
        } else if ps.len() < 0x10000 {
            Marker::Map16
        } else {
            Marker::Map32
        },
        ValueModel::Ext(_, sq) => {
            let len = sq.len() as int;
            if len == 1 {
                Marker::FixExt1
            } else if len == 2 {
                Marker::FixExt2
            } else if len == 4 {
                Marker::FixExt4
            } else if len == 8 {
                Marker::FixExt8
            } else if len == 16 {
                Marker::FixExt16
            } else if len < 0x100 {
                Marker::Ext8
            } else if len < 0x10000 {
                Marker::Ext16
            } else {
                Marker::Ext32
            }
        },
    }
}

/// Marker agreement for one class of values.
proof fn lemma_marker_agreement_case(v: ValueModel, sel: int)
    requires
        wf_value(v),
        (if sel == 0 {
            v matches ValueModel::Uint(_) || v matches ValueModel::Int(_)
        } else if sel == 1 {
            v matches ValueModel::Str(_) || v matches ValueModel::Bin(_)
        } else if sel == 2 {
            v matches ValueModel::Array(_) || v matches ValueModel::Mapping(_)
        } else {
            v matches ValueModel::Ext(_, _)
        }),
    ensures
        value_enc(v).len() >= 1,
        marker_of_byte(value_enc(v).first()) == marker_of_value(v),
{
    lemma_pow256_units();
    match v {
        ValueModel::Uint(u) => {
            if u < 0x10000 {
                lemma_be_bytes_len(u as int, 2);
            } else if u < 0x100000000 {
                lemma_be_bytes_len(u as int, 4);
            } else {
                lemma_be_bytes_len(u as int, 8);
            }
        },
        ValueModel::Int(i) => {
            if i >= -0x8000 {
                lemma_be_bytes_len(i + 0x10000, 2);
            } else if i >= -0x80000000 {
                lemma_be_bytes_len(i + 0x100000000, 4);
            } else {
                lemma_be_bytes_len(i + 0x10000000000000000, 8);
            }
        },
        ValueModel::Str(sq) => {
            lemma_be_bytes_len(sq.len() as int, 2);
            lemma_be_bytes_len(sq.len() as int, 4);
        },
        ValueModel::Bin(sq) => {
            lemma_be_bytes_len(sq.len() as int, 2);
            lemma_be_bytes_len(sq.len() as int, 4);
        },
        ValueModel::Array(es) => {
            lemma_be_bytes_len(es.len() as int, 2);
            lemma_be_bytes_len(es.len() as int, 4);
        },
        ValueModel::Mapping(ps) => {
            lemma_be_bytes_len(ps.len() as int, 2);
            lemma_be_bytes_len(ps.len() as int, 4);
        },
        ValueModel::Ext(_, sq) => {
            lemma_be_bytes_len(sq.len() as int, 2);
            lemma_be_bytes_len(sq.len() as int, 4);
        },
        _ => {},
    }
}

/// Marker agreement: an encoding is never empty, and the byte it starts
/// with classifies as exactly the marker the encoder chose — so the
/// decoder's dispatch sees the same marker the encoder wrote.
pub proof fn lemma_marker_agreement(v: ValueModel)
    requires
        wf_value(v),
    ensures
        value_enc(v).len() >= 1,
        marker_of_byte(value_enc(v).first()) == marker_of_value(v),
{
    match v {
        ValueModel::Nil => {},
        ValueModel::Bool(_) => {},
        ValueModel::F32Bits(x) => {
            lemma_be_bytes_len(x as int, 4);
        },
        ValueModel::F64Bits(x) => {
            lemma_be_bytes_len(x as int, 8);
        },
        ValueModel::Uint(_) => lemma_marker_agreement_case(v, 0),
        ValueModel::Int(_) => lemma_marker_agreement_case(v, 0),
        ValueModel::Str(_) => lemma_marker_agreement_case(v, 1),
        ValueModel::Bin(_) => lemma_marker_agreement_case(v, 1),
        ValueModel::Array(_) => lemma_marker_agreement_case(v, 2),
        ValueModel::Mapping(_) => lemma_marker_agreement_case(v, 2),
        ValueModel::Ext(_, _) => lemma_marker_agreement_case(v, 3),
    }
}

/// The value of a leading length field is non-negative and bounded.
proof fn lemma_be_val_of_bytes_sub(b: Seq<u8>, k: int)
    requires
        0 <= k <= b.len(),
    ensures
        0 <= be_val(b.subrange(0, k)) < pow256(k as nat),
{
    crate::wire::lemma_be_bytes_of_val(b.subrange(0, k));
}

/// Two buffers that agree on a prefix have equal subranges inside it.
proof fn lemma_take_sub(b1: Seq<u8>, b2: Seq<u8>, n: int, i: int, j: int)
    requires
        0 <= i <= j <= n,
        n <= b1.len(),
        n <= b2.len(),
        b2.take(n) == b1.take(n),
    ensures
        b2.subrange(i, j) == b1.subrange(i, j),
{
    assert forall|k: int| 0 <= k < j - i implies b2.subrange(i, j)[k] == b1.subrange(i, j)[k] by {
        assert(b2.take(n)[i + k] == b1.take(n)[i + k]);
        assert(b2.take(n)[i + k] == b2[i + k]);
        assert(b1.take(n)[i + k] == b1[i + k]);
        assert(b2.subrange(i, j)[k] == b2[i + k]);
        assert(b1.subrange(i, j)[k] == b1[i + k]);
    }
    assert(b2.subrange(i, j) =~= b1.subrange(i, j));
}

/// Agreement on a prefix survives skipping a shared header.
proof fn lemma_take_skip(b1: Seq<u8>, b2: Seq<u8>, n: int, h: int)
    requires
        0 <= h <= n,
        n <= b1.len(),
        n <= b2.len(),
        b2.take(n) == b1.take(n),
    ensures
        b2.skip(h).take(n - h) == b1.skip(h).take(n - h),
{
    assert forall|k: int| 0 <= k < n - h implies #[trigger] b2.skip(h).take(n - h)[k] == b1.skip(
        h,
    ).take(n - h)[k] by {
        assert(b2.take(n)[h + k] == b1.take(n)[h + k]);
        assert(b2.take(n)[h + k] == b2[h + k]);
        assert(b1.take(n)[h + k] == b1[h + k]);
        assert(b2.skip(h)[k] == b2[h + k]);
        assert(b1.skip(h)[k] == b1[h + k]);
        assert(b2.skip(h).take(n - h)[k] == b2.skip(h)[k]);
        assert(b1.skip(h).take(n - h)[k] == b1.skip(h)[k]);
    }
    assert(b2.skip(h).take(n - h) =~= b1.skip(h).take(n - h));
}

/// Prefix determinism: a successful decode reads nothing beyond the bytes
/// it consumes, so any buffer agreeing on that prefix decodes identically.
pub proof fn lemma_decode_prefix(b1: Seq<u8>, b2: Seq<u8>, depth: nat)
    requires
        spec_decode(b1, depth) is Ok,
        spec_decode(b1, depth)->Ok_0.1 <= b2.len(),
        b2.take(spec_decode(b1, depth)->Ok_0.1) == b1.take(spec_decode(b1, depth)->Ok_0.1),
    ensures
        spec_decode(b2, depth) == spec_decode(b1, depth),
    decreases depth, 0nat, 4nat,
{
    let n = spec_decode(b1, depth)->Ok_0.1;
    lemma_decode_len(b1, depth);
    let m = marker_of_byte(b1.first());
    assert(b2.first() == b1.first()) by {
        assert(b2.take(n)[0] == b1.take(n)[0]);
    }
    lemma_decode_body_len(m, b1.skip(1), depth);
    lemma_take_skip(b1, b2, n, 1);
    lemma_decode_prefix_body(m, b1.skip(1), b2.skip(1), depth);
}

#[verifier::rlimit(100)]
#[verifier::spinoff_prover]
proof fn lemma_decode_prefix_scalar(m: Marker, b1: Seq<u8>, b2: Seq<u8>, depth: nat)
    requires
        !crate::decode::is_ext_marker(m),
        !(m matches Marker::FixArray(_)),
        !(m matches Marker::FixMap(_)),
        m != Marker::Array16 && m != Marker::Array32 && m != Marker::Map16 && m != Marker::Map32,
        spec_decode_body(m, b1, depth) is Ok,
        spec_decode_body(m, b1, depth)->Ok_0.1 <= b2.len(),
        b2.take(spec_decode_body(m, b1, depth)->Ok_0.1) == b1.take(
            spec_decode_body(m, b1, depth)->Ok_0.1,
        ),
    ensures
        spec_decode_body(m, b2, depth) == spec_decode_body(m, b1, depth),
    decreases depth, 0nat, 2nat,
{
    let n = spec_decode_body(m, b1, depth)->Ok_0.1;
    lemma_decode_body_len(m, b1, depth);
    if b1.len() >= 2 {
        lemma_be_val_of_bytes_sub(b1, 2);
    }
    if b1.len() >= 4 {
        lemma_be_val_of_bytes_sub(b1, 4);
    }
    match m {

        Marker::U8 | Marker::I8 => {
            assert(b2[0] == b1[0]) by {
                assert(b2.take(n)[0] == b1.take(n)[0]);
            }
            lemma_take_sub(b1, b2, n, 0, 1);
        },
        Marker::U16 | Marker::I16 => {
            lemma_take_sub(b1, b2, n, 0, 2);
        },
        Marker::U32 | Marker::I32 | Marker::F32 => {
            lemma_take_sub(b1, b2, n, 0, 4);
        },
        Marker::U64 | Marker::I64 | Marker::F64 => {
            lemma_take_sub(b1, b2, n, 0, 8);
        },
        Marker::FixStr(l) => {
            lemma_take_sub(b1, b2, n, 0, l as int);
        },
        Marker::Str8 | Marker::Bin8 => {
            assert(b2[0] == b1[0]) by {
                assert(b2.take(n)[0] == b1.take(n)[0]);
            }
            lemma_take_sub(b1, b2, n, 1, 1 + b1[0] as int);
        },
        Marker::Str16 | Marker::Bin16 => {
            lemma_take_sub(b1, b2, n, 0, 2);
            lemma_take_sub(b1, b2, n, 2, 2 + be_val(b1.subrange(0, 2)));
        },
        Marker::Str32 | Marker::Bin32 => {
            lemma_take_sub(b1, b2, n, 0, 4);
            lemma_take_sub(b1, b2, n, 4, 4 + be_val(b1.subrange(0, 4)));
        },
        _ => {},
    }
}

#[verifier::rlimit(100)]
#[verifier::spinoff_prover]
proof fn lemma_prefix_ext_payload(b1: Seq<u8>, b2: Seq<u8>, hdr: int, len: int, depth: nat)
    requires
        0 <= hdr,
        0 <= len,
        spec_decode_ext(b1, hdr, len, depth) is Ok,
        hdr + 1 + len <= b2.len(),
        b2.take(hdr + 1 + len) == b1.take(hdr + 1 + len),
    ensures
        spec_decode_ext(b2, hdr, len, depth) == spec_decode_ext(b1, hdr, len, depth),
{
    let n = hdr + 1 + len;
    lemma_take_sub(b1, b2, n, hdr, hdr + 1);
    lemma_take_sub(b1, b2, n, hdr + 1, hdr + 1 + len);
}

#[verifier::rlimit(100)]
#[verifier::spinoff_prover]
proof fn lemma_prefix_array_body(b1: Seq<u8>, b2: Seq<u8>, hdr: int, cnt: nat, depth: nat)
    requires
        0 <= hdr <= b1.len(),
        spec_decode_array(b1, hdr, cnt, depth) is Ok,
        spec_decode_array(b1, hdr, cnt, depth)->Ok_0.1 <= b2.len(),
        b2.take(spec_decode_array(b1, hdr, cnt, depth)->Ok_0.1) == b1.take(
            spec_decode_array(b1, hdr, cnt, depth)->Ok_0.1,
        ),
    ensures
        spec_decode_array(b2, hdr, cnt, depth) == spec_decode_array(b1, hdr, cnt, depth),
    decreases depth, 0nat, 0nat,
{
    let n = spec_decode_array(b1, hdr, cnt, depth)->Ok_0.1;
    lemma_decode_elems_len(b1.skip(hdr), cnt, (depth - 1) as nat);
    lemma_take_skip(b1, b2, n, hdr);
    lemma_decode_prefix_elems(b1.skip(hdr), b2.skip(hdr), cnt, (depth - 1) as nat);
}

#[verifier::rlimit(100)]
#[verifier::spinoff_prover]
proof fn lemma_prefix_map_body(b1: Seq<u8>, b2: Seq<u8>, hdr: int, cnt: nat, depth: nat)
    requires
        0 <= hdr <= b1.len(),
        spec_decode_map(b1, hdr, cnt, depth) is Ok,
        spec_decode_map(b1, hdr, cnt, depth)->Ok_0.1 <= b2.len(),
        b2.take(spec_decode_map(b1, hdr, cnt, depth)->Ok_0.1) == b1.take(
            spec_decode_map(b1, hdr, cnt, depth)->Ok_0.1,
        ),
    ensures
        spec_decode_map(b2, hdr, cnt, depth) == spec_decode_map(b1, hdr, cnt, depth),
    decreases depth, 0nat, 0nat,
{
    let n = spec_decode_map(b1, hdr, cnt, depth)->Ok_0.1;
    lemma_decode_pairs_len(b1.skip(hdr), cnt, (depth - 1) as nat);
    lemma_take_skip(b1, b2, n, hdr);
    lemma_decode_prefix_pairs(b1.skip(hdr), b2.skip(hdr), cnt, (depth - 1) as nat);
}

#[verifier::rlimit(100)]
#[verifier::spinoff_prover]
proof fn lemma_decode_prefix_ext(m: Marker, b1: Seq<u8>, b2: Seq<u8>, depth: nat)
    requires
        crate::decode::is_ext_marker(m),
        spec_decode_body(m, b1, depth) is Ok,
        spec_decode_body(m, b1, depth)->Ok_0.1 <= b2.len(),
        b2.take(spec_decode_body(m, b1, depth)->Ok_0.1) == b1.take(
            spec_decode_body(m, b1, depth)->Ok_0.1,
        ),
    ensures
        spec_decode_body(m, b2, depth) == spec_decode_body(m, b1, depth),
    decreases depth, 0nat, 2nat,
{
    let n = spec_decode_body(m, b1, depth)->Ok_0.1;
    lemma_decode_body_len(m, b1, depth);
    if b1.len() >= 2 {
        lemma_be_val_of_bytes_sub(b1, 2);
    }
    if b1.len() >= 4 {
        lemma_be_val_of_bytes_sub(b1, 4);
    }
    match m {
        Marker::FixExt1 => lemma_prefix_ext_payload(b1, b2, 0, 1, depth),
        Marker::FixExt2 => lemma_prefix_ext_payload(b1, b2, 0, 2, depth),
        Marker::FixExt4 => lemma_prefix_ext_payload(b1, b2, 0, 4, depth),
        Marker::FixExt8 => lemma_prefix_ext_payload(b1, b2, 0, 8, depth),
        Marker::FixExt16 => lemma_prefix_ext_payload(b1, b2, 0, 16, depth),
        Marker::Ext8 => {
            assert(b2[0] == b1[0]) by {
                assert(b2.take(n)[0] == b1.take(n)[0]);
            }
            lemma_prefix_ext_payload(b1, b2, 1, b1[0] as int, depth);
        },
        Marker::Ext16 => {
            lemma_take_sub(b1, b2, n, 0, 2);
            lemma_prefix_ext_payload(b1, b2, 2, be_val(b1.subrange(0, 2)), depth);
        },
        Marker::Ext32 => {
            lemma_take_sub(b1, b2, n, 0, 4);
            lemma_prefix_ext_payload(b1, b2, 4, be_val(b1.subrange(0, 4)), depth);
        },
        _ => {},
    }
}

#[verifier::rlimit(100)]
#[verifier::spinoff_prover]
proof fn lemma_decode_prefix_cont(m: Marker, b1: Seq<u8>, b2: Seq<u8>, depth: nat)
    requires
        (m matches Marker::FixArray(_)) || (m matches Marker::FixMap(_)) || m == Marker::Array16
            || m == Marker::Array32 || m == Marker::Map16 || m == Marker::Map32,
        spec_decode_body(m, b1, depth) is Ok,
        spec_decode_body(m, b1, depth)->Ok_0.1 <= b2.len(),
        b2.take(spec_decode_body(m, b1, depth)->Ok_0.1) == b1.take(
            spec_decode_body(m, b1, depth)->Ok_0.1,
        ),
    ensures
        spec_decode_body(m, b2, depth) == spec_decode_body(m, b1, depth),
    decreases depth, 0nat, 2nat,
{
    let n = spec_decode_body(m, b1, depth)->Ok_0.1;
    lemma_decode_body_len(m, b1, depth);
    if b1.len() >= 2 {
        lemma_be_val_of_bytes_sub(b1, 2);
    }
    if b1.len() >= 4 {
        lemma_be_val_of_bytes_sub(b1, 4);
    }
    match m {
        Marker::FixArray(l) => {
            lemma_prefix_array_body(b1, b2, 0, l as nat, depth);
        },
        Marker::Array16 => {
            lemma_decode_elems_len(b1.skip(2), be_val(b1.subrange(0, 2)) as nat, (depth - 1) as nat);
            lemma_take_sub(b1, b2, n, 0, 2);
            lemma_prefix_array_body(b1, b2, 2, be_val(b1.subrange(0, 2)) as nat, depth);
        },
        Marker::Array32 => {
            lemma_decode_elems_len(b1.skip(4), be_val(b1.subrange(0, 4)) as nat, (depth - 1) as nat);
            lemma_take_sub(b1, b2, n, 0, 4);
            lemma_prefix_array_body(b1, b2, 4, be_val(b1.subrange(0, 4)) as nat, depth);
        },
        Marker::FixMap(l) => {
            lemma_prefix_map_body(b1, b2, 0, l as nat, depth);
        },
        Marker::Map16 => {
            lemma_decode_pairs_len(b1.skip(2), be_val(b1.subrange(0, 2)) as nat, (depth - 1) as nat);
            lemma_take_sub(b1, b2, n, 0, 2);
            lemma_prefix_map_body(b1, b2, 2, be_val(b1.subrange(0, 2)) as nat, depth);
        },
        Marker::Map32 => {
            lemma_decode_pairs_len(b1.skip(4), be_val(b1.subrange(0, 4)) as nat, (depth - 1) as nat);
            lemma_take_sub(b1, b2, n, 0, 4);
            lemma_prefix_map_body(b1, b2, 4, be_val(b1.subrange(0, 4)) as nat, depth);
        },
        _ => {},
    }
}

/// Prefix determinism for the payload behind a marker.
proof fn lemma_decode_prefix_body(m: Marker, b1: Seq<u8>, b2: Seq<u8>, depth: nat)
    requires
        spec_decode_body(m, b1, depth) is Ok,
        spec_decode_body(m, b1, depth)->Ok_0.1 <= b2.len(),
        b2.take(spec_decode_body(m, b1, depth)->Ok_0.1) == b1.take(
            spec_decode_body(m, b1, depth)->Ok_0.1,
        ),
    ensures
        spec_decode_body(m, b2, depth) == spec_decode_body(m, b1, depth),
    decreases depth, 0nat, 3nat,
{
    match m {
        Marker::FixExt1 | Marker::FixExt2 | Marker::FixExt4 | Marker::FixExt8
            | Marker::FixExt16 | Marker::Ext8 | Marker::Ext16 | Marker::Ext32 => {
            lemma_decode_prefix_ext(m, b1, b2, depth);
        },
        Marker::FixArray(_) | Marker::Array16 | Marker::Array32 | Marker::FixMap(_)
            | Marker::Map16 | Marker::Map32 => {
            lemma_decode_prefix_cont(m, b1, b2, depth);
        },
        _ => {
            lemma_decode_prefix_scalar(m, b1, b2, depth);
        },
    }
}

/// Prefix determinism for a run of elements.
#[verifier::rlimit(100)]
#[verifier::spinoff_prover]
proof fn lemma_decode_prefix_elems(b1: Seq<u8>, b2: Seq<u8>, cnt: nat, depth: nat)
    requires
        spec_decode_elems(b1, cnt, depth) is Ok,
        spec_decode_elems(b1, cnt, depth)->Ok_0.1 <= b2.len(),
        b2.take(spec_decode_elems(b1, cnt, depth)->Ok_0.1) == b1.take(
            spec_decode_elems(b1, cnt, depth)->Ok_0.1,
        ),
    ensures
        spec_decode_elems(b2, cnt, depth) == spec_decode_elems(b1, cnt, depth),
    decreases depth, cnt, 4nat,
{
    if cnt > 0 {
        let n = spec_decode_elems(b1, cnt, depth)->Ok_0.1;
        lemma_decode_elems_len(b1, cnt, depth);
        let c = spec_decode(b1, depth)->Ok_0.1;
        lemma_decode_len(b1, depth);
        lemma_decode_elems_len(b1.skip(c), (cnt - 1) as nat, depth);
        assert(b2.take(c) == b1.take(c)) by {
            lemma_take_sub(b1, b2, n, 0, c);
            assert(b1.subrange(0, c) =~= b1.take(c));
            assert(b2.subrange(0, c) =~= b2.take(c));
        }
        lemma_decode_prefix(b1, b2, depth);
        lemma_take_skip(b1, b2, n, c);
        lemma_decode_prefix_elems(b1.skip(c), b2.skip(c), (cnt - 1) as nat, depth);
    }
}

/// Prefix determinism for a run of key-value pairs.
#[verifier::rlimit(100)]
#[verifier::spinoff_prover]
proof fn lemma_decode_prefix_pairs(b1: Seq<u8>, b2: Seq<u8>, cnt: nat, depth: nat)
    requires
        spec_decode_pairs(b1, cnt, depth) is Ok,
        spec_decode_pairs(b1, cnt, depth)->Ok_0.1 <= b2.len(),
        b2.take(spec_decode_pairs(b1, cnt, depth)->Ok_0.1) == b1.take(
            spec_decode_pairs(b1, cnt, depth)->Ok_0.1,
        ),
    ensures
        spec_decode_pairs(b2, cnt, depth) == spec_decode_pairs(b1, cnt, depth),
    decreases depth, cnt, 4nat,
{
    if cnt > 0 {
        let n = spec_decode_pairs(b1, cnt, depth)->Ok_0.1;
        lemma_decode_pairs_len(b1, cnt, depth);
        let ck = spec_decode(b1, depth)->Ok_0.1;
        lemma_decode_len(b1, depth);
        let cv = spec_decode(b1.skip(ck), depth)->Ok_0.1;
        lemma_decode_len(b1.skip(ck), depth);
        lemma_decode_pairs_len(b1.skip(ck + cv), (cnt - 1) as nat, depth);
        assert(b1.skip(ck).skip(cv) =~= b1.skip(ck + cv));
        assert(b2.take(ck) == b1.take(ck)) by {
            lemma_take_sub(b1, b2, n, 0, ck);
            assert(b1.subrange(0, ck) =~= b1.take(ck));
            assert(b2.subrange(0, ck) =~= b2.take(ck));
        }
        lemma_decode_prefix(b1, b2, depth);
        lemma_take_skip(b1, b2, n, ck);
        assert(b1.skip(ck).take(cv) == b2.skip(ck).take(cv)) by {
            lemma_take_sub(b1.skip(ck), b2.skip(ck), n - ck, 0, cv);
            assert(b1.skip(ck).subrange(0, cv) =~= b1.skip(ck).take(cv));
            assert(b2.skip(ck).subrange(0, cv) =~= b2.skip(ck).take(cv));
        }
        lemma_decode_prefix(b1.skip(ck), b2.skip(ck), depth);
        lemma_take_skip(b1, b2, n, ck + cv);
        assert(b2.skip(ck).skip(cv) =~= b2.skip(ck + cv));
        lemma_decode_prefix_pairs(b1.skip(ck + cv), b2.skip(ck + cv), (cnt - 1) as nat, depth);
    }
}

/// The bytes a decode consumes are exactly the first valid value of the
/// buffer: decoding just that prefix yields the same value, consuming all
/// of it.
pub proof fn lemma_consumed_prefix_decodes_alike(b: Seq<u8>, depth: nat)
    requires
        spec_decode(b, depth) is Ok,
    ensures
        spec_decode(b, depth)->Ok_0.1 <= b.len(),
        spec_decode(b.take(spec_decode(b, depth)->Ok_0.1), depth) == spec_decode(b, depth),
    decreases 0nat,
{
    let n = spec_decode(b, depth)->Ok_0.1;
    lemma_decode_len(b, depth);
    assert(b.take(n).take(n) =~= b.take(n));
    lemma_decode_prefix(b, b.take(n), depth);
}

/// The bytes of the fields of a struct, written one after the other under
/// one configuration.
pub open spec fn struct_fields_enc(as_map: bool, fields: Seq<(Seq<u8>, ValueModel)>) -> Seq<u8>
    decreases fields,
{
    if fields.len() == 0 {
        Seq::empty()
    } else {
        struct_field_enc(as_map, fields.first().0, fields.first().1) + struct_fields_enc(
            as_map,
            fields.drop_first(),
        )
    }
}

/// The plain value a struct's wire form spells: an array of the field
/// values, or a map from field names to field values.
pub open spec fn struct_as_value(as_map: bool, fields: Seq<(Seq<u8>, ValueModel)>) -> ValueModel {
    if as_map {
        ValueModel::Mapping(
            fields.map_values(|kv: (Seq<u8>, ValueModel)| (ValueModel::Str(kv.0), kv.1)),
        )
    } else {
        ValueModel::Array(fields.map_values(|kv: (Seq<u8>, ValueModel)| kv.1))
    }
}

proof fn lemma_struct_fields_arr(fields: Seq<(Seq<u8>, ValueModel)>)
    ensures
        struct_fields_enc(false, fields) == values_enc(
            fields.map_values(|kv: (Seq<u8>, ValueModel)| kv.1),
        ),
    decreases fields,
{
    let mapped = fields.map_values(|kv: (Seq<u8>, ValueModel)| kv.1);
    if fields.len() == 0 {
        assert(mapped.len() == 0);
    } else {
        lemma_struct_fields_arr(fields.drop_first());
        assert(mapped.first() == fields.first().1);
        assert(mapped.drop_first() =~= fields.drop_first().map_values(
            |kv: (Seq<u8>, ValueModel)| kv.1,
        ));
    }
}

proof fn lemma_struct_fields_map(fields: Seq<(Seq<u8>, ValueModel)>)
    ensures
        struct_fields_enc(true, fields) == pairs_enc(
            fields.map_values(|kv: (Seq<u8>, ValueModel)| (ValueModel::Str(kv.0), kv.1)),
        ),
    decreases fields,
{
    let mapped = fields.map_values(|kv: (Seq<u8>, ValueModel)| (ValueModel::Str(kv.0), kv.1));
    if fields.len() == 0 {
        assert(mapped.len() == 0);
    } else {
        lemma_struct_fields_map(fields.drop_first());
        assert(mapped.first() == (ValueModel::Str(fields.first().0), fields.first().1));
        assert(mapped.drop_first() =~= fields.drop_first().map_values(
            |kv: (Seq<u8>, ValueModel)| (ValueModel::Str(kv.0), kv.1),
        ));
        assert(struct_fields_enc(true, fields) =~= pairs_enc(mapped));
    }
}

/// Struct framing spells a plain value: under any configuration, the header
/// plus the fields written one by one are exactly the encoding of the
/// translated array or map — so the round-trip and depth laws carry over to
/// struct framing under every configuration.
pub proof fn lemma_struct_framing_as_value(as_map: bool, fields: Seq<(Seq<u8>, ValueModel)>)
    requires
        fields.len() <= u32::MAX,
    ensures
        struct_len_enc(as_map, fields.len() as int) + struct_fields_enc(as_map, fields)
            == value_enc(struct_as_value(as_map, fields)),
{
    if as_map {
        lemma_struct_fields_map(fields);
    } else {
        lemma_struct_fields_arr(fields);
    }
}

} // verus!
