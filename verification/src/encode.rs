//! The encoder: translates data-model values into MessagePack bytes, always
//! choosing the smallest representation the format admits for the value.

use vstd::prelude::*;
use vstd::string::StringSliceAdditionalSpecFns;
use crate::config::SerializerConfig;
use crate::error::EncodeError;
use crate::value::{Value, ValueModel, value_model, value_models, pair_models};
use crate::wire::{be_bytes, pow256, push_be, lemma_pow256_increases, lemma_pow256_pos};

verus! {

/// The byte carrying a signed 8-bit quantity (an `i8` payload or an ext tag)
/// in two's complement.
pub open spec fn byte_of_i8(v: i8) -> u8 {
    if v >= 0 {
        v as u8
    } else {
        (v + 0x100) as u8
    }
}

/// The smallest encoding of a non-negative integer: positive fixint, then the
/// `u8`/`u16`/`u32`/`u64` families.
pub open spec fn uint_enc(v: u64) -> Seq<u8> {
    if v < 0x80 {
        seq![v as u8]
    } else if v < 0x100 {
        seq![0xccu8, v as u8]
    } else if v < 0x10000 {
        seq![0xcdu8] + be_bytes(v as int, 2)
    } else if v < 0x100000000 {
        seq![0xceu8] + be_bytes(v as int, 4)
    } else {
        seq![0xcfu8] + be_bytes(v as int, 8)
    }
}

/// The smallest encoding of a signed integer: non-negative values take the
/// unsigned forms; negative values take negative fixint, then the
/// `i8`/`i16`/`i32`/`i64` families, with two's-complement payloads.
pub open spec fn sint_enc(v: i64) -> Seq<u8> {
    if v >= 0 {
        uint_enc(v as u64)
    } else if v >= -32 {
        seq![(v + 0x100) as u8]
    } else if v >= -0x80 {
        seq![0xd0u8, (v + 0x100) as u8]
    } else if v >= -0x8000 {
        seq![0xd1u8] + be_bytes(v + 0x10000, 2)
    } else if v >= -0x80000000 {
        seq![0xd2u8] + be_bytes(v + 0x100000000, 4)
    } else {
        seq![0xd3u8] + be_bytes(v + 0x10000000000000000, 8)
    }
}

/// The header framing a string of `len` bytes (for `len` up to `u32::MAX`).
pub open spec fn str_hdr_enc(len: int) -> Seq<u8> {
    if len < 0x20 {
        seq![(0xa0 + len) as u8]
    } else if len < 0x100 {
        seq![0xd9u8, len as u8]
    } else if len < 0x10000 {
        seq![0xdau8] + be_bytes(len, 2)
    } else {
        seq![0xdbu8] + be_bytes(len, 4)
    }
}

/// The header framing a byte array of `len` bytes.
pub open spec fn bin_hdr_enc(len: int) -> Seq<u8> {
    if len < 0x100 {
        seq![0xc4u8, len as u8]
    } else if len < 0x10000 {
        seq![0xc5u8] + be_bytes(len, 2)
    } else {
        seq![0xc6u8] + be_bytes(len, 4)
    }
}

/// The header framing an array of `len` elements.
pub open spec fn array_hdr_enc(len: int) -> Seq<u8> {
    if len < 0x10 {
        seq![(0x90 + len) as u8]
    } else if len < 0x10000 {
        seq![0xdcu8] + be_bytes(len, 2)
    } else {
        seq![0xddu8] + be_bytes(len, 4)
    }
}

/// The header framing a map of `len` entries.
pub open spec fn map_hdr_enc(len: int) -> Seq<u8> {
    if len < 0x10 {
        seq![(0x80 + len) as u8]
    } else if len < 0x10000 {
        seq![0xdeu8] + be_bytes(len, 2)
    } else {
        seq![0xdfu8] + be_bytes(len, 4)
    }
}

/// The header framing an ext value of `len` payload bytes with the given tag:
/// a fixext marker when the length is exactly 1, 2, 4, 8 or 16, else the
/// `ext8`/`ext16`/`ext32` families; the tag byte closes the header.
pub open spec fn ext_hdr_enc(len: int, tag: i8) -> Seq<u8> {
    let h = if len == 1 {
        seq![0xd4u8]
    } else if len == 2 {
        seq![0xd5u8]
    } else if len == 4 {
        seq![0xd6u8]
    } else if len == 8 {
        seq![0xd7u8]
    } else if len == 16 {
        seq![0xd8u8]
    } else if len < 0x100 {
        seq![0xc7u8, len as u8]
    } else if len < 0x10000 {
        seq![0xc8u8] + be_bytes(len, 2)
    } else {
        seq![0xc9u8] + be_bytes(len, 4)
    };
    h + seq![byte_of_i8(tag)]
}

/// The encoding of a 32-bit float, by bit pattern.
pub open spec fn f32_enc(bits: u32) -> Seq<u8> {
    seq![0xcau8] + be_bytes(bits as int, 4)
}

/// The encoding of a 64-bit float, by bit pattern.
pub open spec fn f64_enc(bits: u64) -> Seq<u8> {
    seq![0xcbu8] + be_bytes(bits as int, 8)
}

/// The encoding of a whole value.
pub open spec fn value_enc(v: ValueModel) -> Seq<u8>
    decreases v,
{
    match v {
        ValueModel::Nil => seq![0xc0u8],
        ValueModel::Bool(b) => if b {
            seq![0xc3u8]
        } else {
            seq![0xc2u8]
        },
        ValueModel::Uint(u) => uint_enc(u),
        ValueModel::Int(i) => sint_enc(i),
        ValueModel::F32Bits(b) => f32_enc(b),
        ValueModel::F64Bits(b) => f64_enc(b),
        ValueModel::Str(s) => str_hdr_enc(s.len() as int) + s,
        ValueModel::Bin(s) => bin_hdr_enc(s.len() as int) + s,
        ValueModel::Array(es) => array_hdr_enc(es.len() as int) + values_enc(es),
        ValueModel::Mapping(ps) => map_hdr_enc(ps.len() as int) + pairs_enc(ps),
        ValueModel::Ext(t, s) => ext_hdr_enc(s.len() as int, t) + s,
    }
}

/// The encodings of a sequence of values, in order.
pub open spec fn values_enc(s: Seq<ValueModel>) -> Seq<u8>
    decreases s,
{
    if s.len() == 0 {
        Seq::empty()
    } else {
        value_enc(s.first()) + values_enc(s.drop_first())
    }
}

/// The encodings of a sequence of map entries, each key before its value.
pub open spec fn pairs_enc(s: Seq<(ValueModel, ValueModel)>) -> Seq<u8>
    decreases s,
{
    if s.len() == 0 {
        Seq::empty()
    } else {
        value_enc(s.first().0) + value_enc(s.first().1) + pairs_enc(s.drop_first())
    }
}

/// Whether every payload and container length in the value fits a 32-bit
/// length header, which is all the encoder asks of a value.
pub open spec fn encodable(v: ValueModel) -> bool
    decreases v,
{
    match v {
        ValueModel::Str(b) => b.len() <= u32::MAX,
        ValueModel::Bin(b) => b.len() <= u32::MAX,
        ValueModel::Ext(_, b) => b.len() <= u32::MAX,
        ValueModel::Array(s) => s.len() <= u32::MAX && encodable_values(s),
        ValueModel::Mapping(s) => s.len() <= u32::MAX && encodable_pairs(s),
        _ => true,
    }
}

pub open spec fn encodable_values(s: Seq<ValueModel>) -> bool
    decreases s,
{
    s.len() == 0 || (encodable(s.first()) && encodable_values(s.drop_first()))
}

pub open spec fn encodable_pairs(s: Seq<(ValueModel, ValueModel)>) -> bool
    decreases s,
{
    s.len() == 0 || (encodable(s.first().0) && encodable(s.first().1) && encodable_pairs(
        s.drop_first(),
    ))
}

proof fn lemma_pow256_fits()
    ensures
        pow256(1) == 0x100,
        pow256(2) == 0x10000,
        pow256(4) == 0x100000000,
        pow256(8) == 0x10000000000000000,
{
    reveal_with_fuel(pow256, 9);
}

/// Appends all bytes of a slice.
pub fn push_bytes(out: &mut Vec<u8>, s: &[u8])
    ensures
        final(out)@ == old(out)@ + s@,
{
    let n = s.len();
    let mut i: usize = 0;
    while i < n
        invariant
            i <= n,
            n == s@.len(),
            out@ == old(out)@ + s@.take(i as int),
        decreases n - i,
    {
        out.push(s[i]);
        proof {
            assert(out@ =~= old(out)@ + s@.take(i + 1));
        }
        i = i + 1;
    }
    proof {
        assert(s@.take(n as int) =~= s@);
    }
}

/// Writes the `nil` marker.
pub fn write_nil(out: &mut Vec<u8>)
    ensures
        final(out)@ == old(out)@ + value_enc(ValueModel::Nil),
{
    out.push(0xc0);
    proof {
        assert(out@ =~= old(out)@ + seq![0xc0u8]);
    }
}

/// Writes a boolean marker.
pub fn write_bool(out: &mut Vec<u8>, val: bool)
    ensures
        final(out)@ == old(out)@ + value_enc(ValueModel::Bool(val)),
{
    out.push(if val { 0xc3 } else { 0xc2 });
    proof {
        assert(out@ =~= old(out)@ + value_enc(ValueModel::Bool(val)));
    }
}

/// Writes a non-negative integer in its smallest representation.
pub fn write_uint(out: &mut Vec<u8>, val: u64)
    ensures
        final(out)@ == old(out)@ + uint_enc(val),
{
    proof {
        lemma_pow256_fits();
    }
    if val < 0x80 {
        out.push(val as u8);
    } else if val < 0x100 {
        out.push(0xcc);
        out.push(val as u8);
    } else if val < 0x10000 {
        out.push(0xcd);
        push_be(out, val, 2);
    } else if val < 0x100000000 {
        out.push(0xce);
        push_be(out, val, 4);
    } else {
        out.push(0xcf);
        push_be(out, val, 8);
    }
    proof {
        assert(out@ =~= old(out)@ + uint_enc(val));
    }
}

/// Writes a signed integer in its smallest representation; non-negative
/// values take the unsigned forms.
pub fn write_sint(out: &mut Vec<u8>, val: i64)
    ensures
        final(out)@ == old(out)@ + sint_enc(val),
{
    proof {
        lemma_pow256_fits();
    }
    if val >= 0 {
        write_uint(out, val as u64);
    } else if val >= -32 {
        out.push((val + 0x100) as u8);
    } else if val >= -0x80 {
        out.push(0xd0);
        out.push((val + 0x100) as u8);
    } else if val >= -0x8000 {
        out.push(0xd1);
        push_be(out, (val + 0x10000) as u64, 2);
    } else if val >= -0x80000000 {
        out.push(0xd2);
        push_be(out, (val + 0x100000000) as u64, 4);
    } else {
        out.push(0xd3);
        let wide: i128 = (val as i128) + 0x10000000000000000;
        push_be(out, wide as u64, 8);
    }
    proof {
        assert(out@ =~= old(out)@ + sint_enc(val));
    }
}

/// Writes a 32-bit float given by bit pattern.
pub fn write_f32_bits(out: &mut Vec<u8>, bits: u32)
    ensures
        final(out)@ == old(out)@ + f32_enc(bits),
{
    proof {
        lemma_pow256_fits();
    }
    out.push(0xca);
    push_be(out, bits as u64, 4);
    proof {
        assert(out@ =~= old(out)@ + f32_enc(bits));
    }
}

/// Writes a 64-bit float given by bit pattern.
pub fn write_f64_bits(out: &mut Vec<u8>, bits: u64)
    ensures
        final(out)@ == old(out)@ + f64_enc(bits),
{
    proof {
        lemma_pow256_fits();
    }
    out.push(0xcb);
    push_be(out, bits, 8);
    proof {
        assert(out@ =~= old(out)@ + f64_enc(bits));
    }
}

/// Writes the header framing a string of `len` bytes.
pub fn write_str_len(out: &mut Vec<u8>, len: u32)
    ensures
        final(out)@ == old(out)@ + str_hdr_enc(len as int),
{
    proof {
        lemma_pow256_fits();
    }
    if len < 0x20 {
        out.push(0xa0 + len as u8);
    } else if len < 0x100 {
        out.push(0xd9);
        out.push(len as u8);
    } else if len < 0x10000 {
        out.push(0xda);
        push_be(out, len as u64, 2);
    } else {
        out.push(0xdb);
        push_be(out, len as u64, 4);
    }
    proof {
        assert(out@ =~= old(out)@ + str_hdr_enc(len as int));
    }
}

/// Writes a string value: header, then the raw bytes, which need not be
/// valid UTF-8.
pub fn write_str_bytes(out: &mut Vec<u8>, s: &[u8]) -> (r: Result<(), EncodeError>)
    ensures
        s@.len() <= u32::MAX <==> r is Ok,
        r is Ok ==> final(out)@ == old(out)@ + value_enc(ValueModel::Str(s@)),
        r is Err ==> r == Err::<(), EncodeError>(EncodeError::LengthOverflow(s@.len() as usize))
            && final(out)@ == old(out)@,
{
    if s.len() > 0xffffffffusize {
        return Err(EncodeError::LengthOverflow(s.len()));
    }
    write_str_len(out, s.len() as u32);
    push_bytes(out, s);
    proof {
        assert(out@ =~= old(out)@ + value_enc(ValueModel::Str(s@)));
    }
    Ok(())
}

/// Writes a string value from UTF-8 text.
pub fn write_str(out: &mut Vec<u8>, s: &str) -> (r: Result<(), EncodeError>)
    ensures
        s.spec_bytes().len() <= u32::MAX <==> r is Ok,
        r is Ok ==> final(out)@ == old(out)@ + value_enc(ValueModel::Str(s.spec_bytes())),
        r is Err ==> final(out)@ == old(out)@,
{
    write_str_bytes(out, s.as_bytes())
}

/// Writes a byte array: header, then the bytes.
pub fn write_bin(out: &mut Vec<u8>, s: &[u8]) -> (r: Result<(), EncodeError>)
    ensures
        s@.len() <= u32::MAX <==> r is Ok,
        r is Ok ==> final(out)@ == old(out)@ + value_enc(ValueModel::Bin(s@)),
        r is Err ==> r == Err::<(), EncodeError>(EncodeError::LengthOverflow(s@.len() as usize))
            && final(out)@ == old(out)@,
{
    proof {
        lemma_pow256_fits();
    }
    if s.len() > 0xffffffffusize {
        return Err(EncodeError::LengthOverflow(s.len()));
    }
    let len = s.len() as u32;
    if len < 0x100 {
        out.push(0xc4);
        out.push(len as u8);
    } else if len < 0x10000 {
        out.push(0xc5);
        push_be(out, len as u64, 2);
    } else {
        out.push(0xc6);
        push_be(out, len as u64, 4);
    }
    push_bytes(out, s);
    proof {
        assert(out@ =~= old(out)@ + value_enc(ValueModel::Bin(s@)));
    }
    Ok(())
}

/// Writes the header framing an array of `len` elements; the caller writes
/// the elements after it.
pub fn write_array_len(out: &mut Vec<u8>, len: u32)
    ensures
        final(out)@ == old(out)@ + array_hdr_enc(len as int),
{
    proof {
        lemma_pow256_fits();
    }
    if len < 0x10 {
        out.push(0x90 + len as u8);
    } else if len < 0x10000 {
        out.push(0xdc);
        push_be(out, len as u64, 2);
    } else {
        out.push(0xdd);
        push_be(out, len as u64, 4);
    }
    proof {
        assert(out@ =~= old(out)@ + array_hdr_enc(len as int));
    }
}

/// Writes the header framing a map of `len` entries; the caller writes the
/// alternating keys and values after it.
pub fn write_map_len(out: &mut Vec<u8>, len: u32)
    ensures
        final(out)@ == old(out)@ + map_hdr_enc(len as int),
{
    proof {
        lemma_pow256_fits();
    }
    if len < 0x10 {
        out.push(0x80 + len as u8);
    } else if len < 0x10000 {
        out.push(0xde);
        push_be(out, len as u64, 2);
    } else {
        out.push(0xdf);
        push_be(out, len as u64, 4);
    }
    proof {
        assert(out@ =~= old(out)@ + map_hdr_enc(len as int));
    }
}

/// Writes an ext value: marker (fixext when the payload is exactly 1, 2, 4,
/// 8 or 16 bytes long), length where the marker does not imply it, tag byte,
/// payload.
pub fn write_ext(out: &mut Vec<u8>, tag: i8, s: &[u8]) -> (r: Result<(), EncodeError>)
    ensures
        s@.len() <= u32::MAX <==> r is Ok,
        r is Ok ==> final(out)@ == old(out)@ + value_enc(ValueModel::Ext(tag, s@)),
        r is Err ==> r == Err::<(), EncodeError>(EncodeError::LengthOverflow(s@.len() as usize))
            && final(out)@ == old(out)@,
{
    proof {
        lemma_pow256_fits();
    }
    if s.len() > 0xffffffffusize {
        return Err(EncodeError::LengthOverflow(s.len()));
    }
    let len = s.len() as u32;
    if len == 1 {
        out.push(0xd4);
    } else if len == 2 {
        out.push(0xd5);
    } else if len == 4 {
        out.push(0xd6);
    } else if len == 8 {
        out.push(0xd7);
    } else if len == 16 {
        out.push(0xd8);
    } else if len < 0x100 {
        out.push(0xc7);
        out.push(len as u8);
    } else if len < 0x10000 {
        out.push(0xc8);
        push_be(out, len as u64, 2);
    } else {
        out.push(0xc9);
        push_be(out, len as u64, 4);
    }
    if tag >= 0 {
        out.push(tag as u8);
    } else {
        out.push(((tag as i16) + 0x100) as u8);
    }
    push_bytes(out, s);
    proof {
        assert(out@ =~= old(out)@ + value_enc(ValueModel::Ext(tag, s@)));
    }
    Ok(())
}

/// Writes a whole value. Succeeds exactly when every length in the value
/// fits a 32-bit header; on failure the error names the offending length and
/// the output may hold a partial prefix.
#[verifier::loop_isolation(false)]
pub fn write_value(out: &mut Vec<u8>, v: &Value<'_>) -> (r: Result<(), EncodeError>)
    ensures
        r is Ok <==> encodable(v@),
        r is Ok ==> final(out)@ == old(out)@ + value_enc(v@),
        r is Err ==> r matches Err(EncodeError::LengthOverflow(_)),
    decreases *v,
{
    match v {
        Value::Nil => {
            write_nil(out);
            Ok(())
        },
        Value::Bool(b) => {
            write_bool(out, *b);
            Ok(())
        },
        Value::Uint(u) => {
            write_uint(out, *u);
            Ok(())
        },
        Value::Int(i) => {
            write_sint(out, *i);
            Ok(())
        },
        Value::F32Bits(b) => {
            write_f32_bits(out, *b);
            Ok(())
        },
        Value::F64Bits(b) => {
            write_f64_bits(out, *b);
            Ok(())
        },
        Value::Str(s) => write_str_bytes(out, s),
        Value::Bin(s) => write_bin(out, s),
        Value::Ext(t, s) => write_ext(out, *t, s),
        Value::Array(es) => {
            proof {
                assert(v@ == ValueModel::Array(value_models(es@)));
                lemma_value_models_len(es@);
            }
            if es.len() > 0xffffffffusize {
                return Err(EncodeError::LengthOverflow(es.len()));
            }
            write_array_len(out, es.len() as u32);
            let n = es.len();
            let mut i: usize = 0;
            proof {
                assert(value_models(es@.take(0)) =~= Seq::<ValueModel>::empty());
            }
            while i < n
                invariant
                    i <= n,
                    n == es@.len() <= u32::MAX,
                    out@ == old(out)@ + array_hdr_enc(n as int) + values_enc(
                        value_models(es@.take(i as int)),
                    ),
                    encodable_values(value_models(es@.take(i as int))),
                decreases n - i,
            {
                let ghost pre = value_models(es@.take(i as int));
                proof {
                    assert(decreases_to!(*v => es@[i as int])) by {
                        assert(decreases_to!(*v => v->Array_0));
                        assert(v->Array_0 == *es);
                        assert(decreases_to!(*es => es@));
                        assert(decreases_to!(es@ => es@[i as int]));
                    }
                }
                match write_value(out, &es[i]) {
                    Ok(()) => {},
                    Err(e) => {
                        proof {
                            lemma_not_encodable_elem(es@, i as int);
                        }
                        return Err(e);
                    },
                }
                proof {
                    assert(es@.take(i + 1).drop_last() =~= es@.take(i as int));
                    assert(value_models(es@.take(i + 1)) =~= pre.push(value_model(es@[i as int])));
                    lemma_values_enc_push(pre, value_model(es@[i as int]));
                    lemma_encodable_values_push(pre, value_model(es@[i as int]));
                    assert(out@ =~= old(out)@ + array_hdr_enc(n as int) + values_enc(
                        value_models(es@.take(i + 1)),
                    ));
                }
                i = i + 1;
            }
            proof {
                assert(es@.take(n as int) =~= es@);
                assert(out@ =~= old(out)@ + value_enc(v@));
            }
            Ok(())
        },
        Value::Mapping(ps) => {
            proof {
                assert(v@ == ValueModel::Mapping(pair_models(ps@)));
                lemma_pair_models_len(ps@);
            }
            if ps.len() > 0xffffffffusize {
                return Err(EncodeError::LengthOverflow(ps.len()));
            }
            write_map_len(out, ps.len() as u32);
            let n = ps.len();
            let mut i: usize = 0;
            proof {
                assert(pair_models(ps@.take(0)) =~= Seq::<(ValueModel, ValueModel)>::empty());
            }
            while i < n
                invariant
                    i <= n,
                    n == ps@.len() <= u32::MAX,
                    out@ == old(out)@ + map_hdr_enc(n as int) + pairs_enc(
                        pair_models(ps@.take(i as int)),
                    ),
                    encodable_pairs(pair_models(ps@.take(i as int))),
                decreases n - i,
            {
                let ghost pre = pair_models(ps@.take(i as int));
                proof {
                    assert(decreases_to!(*v => ps@[i as int].0)) by {
                        assert(decreases_to!(*v => v->Mapping_0));
                        assert(v->Mapping_0 == *ps);
                        assert(decreases_to!(*ps => ps@));
                        assert(decreases_to!(ps@ => ps@[i as int]));
                        assert(decreases_to!(ps@[i as int] => ps@[i as int].0));
                    }
                    assert(decreases_to!(*v => ps@[i as int].1)) by {
                        assert(decreases_to!(*v => v->Mapping_0));
                        assert(v->Mapping_0 == *ps);
                        assert(decreases_to!(*ps => ps@));
                        assert(decreases_to!(ps@ => ps@[i as int]));
                        assert(decreases_to!(ps@[i as int] => ps@[i as int].1));
                    }
                }
                match write_value(out, &ps[i].0) {
                    Ok(()) => {},
                    Err(e) => {
                        proof {
                            lemma_not_encodable_pair(ps@, i as int, true);
                        }
                        return Err(e);
                    },
                }
                match write_value(out, &ps[i].1) {
                    Ok(()) => {},
                    Err(e) => {
                        proof {
                            lemma_not_encodable_pair(ps@, i as int, false);
                        }
                        return Err(e);
                    },
                }
                proof {
                    assert(ps@.take(i + 1).drop_last() =~= ps@.take(i as int));
                    assert(pair_models(ps@.take(i + 1)) =~= pre.push(
                        (value_model(ps@[i as int].0), value_model(ps@[i as int].1)),
                    ));
                    lemma_pairs_enc_push(
                        pre,
                        (value_model(ps@[i as int].0), value_model(ps@[i as int].1)),
                    );
                    lemma_encodable_pairs_push(
                        pre,
                        (value_model(ps@[i as int].0), value_model(ps@[i as int].1)),
                    );
                    assert(out@ =~= old(out)@ + map_hdr_enc(n as int) + pairs_enc(
                        pair_models(ps@.take(i + 1)),
                    ));
                }
                i = i + 1;
            }
            proof {
                assert(ps@.take(n as int) =~= ps@);
                assert(out@ =~= old(out)@ + value_enc(v@));
            }
            Ok(())
        },
    }
}

/// Appending one element extends the concatenated encodings on the right.
proof fn lemma_values_enc_push(s: Seq<ValueModel>, v: ValueModel)
    ensures
        values_enc(s.push(v)) == values_enc(s) + value_enc(v),
    decreases s,
{
    assert(s.push(v).len() == s.len() + 1);
    if s.len() == 0 {
        assert(s.push(v).first() == v);
        assert(s.push(v).drop_first() =~= Seq::<ValueModel>::empty());
        assert(values_enc(s.push(v).drop_first()) == Seq::<u8>::empty());
        assert(values_enc(s.push(v)) =~= values_enc(s) + value_enc(v));
    } else {
        assert(s.push(v).first() == s.first());
        assert(s.push(v).drop_first() =~= s.drop_first().push(v));
        lemma_values_enc_push(s.drop_first(), v);
        assert(values_enc(s.push(v)) =~= values_enc(s) + value_enc(v));
    }
}

proof fn lemma_pairs_enc_push(s: Seq<(ValueModel, ValueModel)>, p: (ValueModel, ValueModel))
    ensures
        pairs_enc(s.push(p)) == pairs_enc(s) + value_enc(p.0) + value_enc(p.1),
    decreases s,
{
    assert(s.push(p).len() == s.len() + 1);
    if s.len() == 0 {
        assert(s.push(p).first() == p);
        assert(s.push(p).drop_first() =~= Seq::<(ValueModel, ValueModel)>::empty());
        assert(pairs_enc(s.push(p).drop_first()) == Seq::<u8>::empty());
        assert(pairs_enc(s.push(p)) =~= pairs_enc(s) + value_enc(p.0) + value_enc(p.1));
    } else {
        assert(s.push(p).first() == s.first());
        assert(s.push(p).drop_first() =~= s.drop_first().push(p));
        lemma_pairs_enc_push(s.drop_first(), p);
        assert(pairs_enc(s.push(p)) =~= pairs_enc(s) + value_enc(p.0) + value_enc(p.1));
    }
}

proof fn lemma_encodable_values_push(s: Seq<ValueModel>, v: ValueModel)
    requires
        encodable_values(s),
        encodable(v),
    ensures
        encodable_values(s.push(v)),
    decreases s,
{
    assert(s.push(v).len() == s.len() + 1);
    if s.len() == 0 {
        assert(s.push(v).first() == v);
        assert(s.push(v).drop_first() =~= Seq::<ValueModel>::empty());
        assert(encodable(s.push(v).first()));
        assert(encodable_values(s.push(v).drop_first()));
        assert(encodable_values(s.push(v)));
    } else {
        assert(s.push(v).first() == s.first());
        assert(s.push(v).drop_first() =~= s.drop_first().push(v));
        lemma_encodable_values_push(s.drop_first(), v);
        assert(encodable(s.push(v).first()));
        assert(encodable_values(s.push(v).drop_first()));
        assert(encodable_values(s.push(v)));
    }
}

proof fn lemma_encodable_pairs_push(s: Seq<(ValueModel, ValueModel)>, p: (ValueModel, ValueModel))
    requires
        encodable_pairs(s),
        encodable(p.0),
        encodable(p.1),
    ensures
        encodable_pairs(s.push(p)),
    decreases s,
{
    assert(s.push(p).len() == s.len() + 1);
    if s.len() == 0 {
        assert(s.push(p).first() == p);
        assert(s.push(p).drop_first() =~= Seq::<(ValueModel, ValueModel)>::empty());
        assert(encodable(s.push(p).first().0) && encodable(s.push(p).first().1));
        assert(encodable_pairs(s.push(p).drop_first()));
        assert(encodable_pairs(s.push(p)));
    } else {
        assert(s.push(p).first() == s.first());
        assert(s.push(p).drop_first() =~= s.drop_first().push(p));
        lemma_encodable_pairs_push(s.drop_first(), p);
        assert(encodable(s.push(p).first().0) && encodable(s.push(p).first().1));
        assert(encodable_pairs(s.push(p).drop_first()));
        assert(encodable_pairs(s.push(p)));
    }
}

/// If one element of a sequence is not encodable, the array holding the
/// sequence is not encodable.
proof fn lemma_not_encodable_elem(s: Seq<Value<'_>>, i: int)
    requires
        0 <= i < s.len(),
        !encodable(value_model(s[i])),
    ensures
        !encodable_values(value_models(s)),
    decreases s,
{
    lemma_value_models_len(s);
    if encodable_values(value_models(s)) {
        if i == s.len() - 1 {
            lemma_encodable_values_last(value_models(s));
        } else {
            lemma_not_encodable_elem(s.drop_last(), i);
            lemma_encodable_values_prefix(value_models(s));
            assert(value_models(s).drop_last() =~= value_models(s.drop_last()));
        }
    }
}

proof fn lemma_not_encodable_pair(s: Seq<(Value<'_>, Value<'_>)>, i: int, key: bool)
    requires
        0 <= i < s.len(),
        key ==> !encodable(value_model(s[i].0)),
        !key ==> !encodable(value_model(s[i].1)),
    ensures
        !encodable_pairs(pair_models(s)),
    decreases s,
{
    lemma_pair_models_len(s);
    if encodable_pairs(pair_models(s)) {
        if i == s.len() - 1 {
            lemma_encodable_pairs_last(pair_models(s));
        } else {
            lemma_not_encodable_pair(s.drop_last(), i, key);
            lemma_encodable_pairs_prefix(pair_models(s));
            assert(pair_models(s).drop_last() =~= pair_models(s.drop_last()));
        }
    }
}

proof fn lemma_value_models_len(s: Seq<Value<'_>>)
    ensures
        value_models(s).len() == s.len(),
        s.len() > 0 ==> value_models(s).last() == value_model(s.last()),
    decreases s,
{
    if s.len() > 0 {
        lemma_value_models_len(s.drop_last());
    }
}

proof fn lemma_pair_models_len(s: Seq<(Value<'_>, Value<'_>)>)
    ensures
        pair_models(s).len() == s.len(),
        s.len() > 0 ==> pair_models(s).last() == (
            value_model(s.last().0),
            value_model(s.last().1),
        ),
    decreases s,
{
    if s.len() > 0 {
        lemma_pair_models_len(s.drop_last());
    }
}

/// A sequence whose last element is not encodable is not encodable.
proof fn lemma_encodable_values_last(s: Seq<ValueModel>)
    requires
        s.len() > 0,
        encodable_values(s),
    ensures
        encodable(s.last()),
    decreases s,
{
    if s.len() > 1 {
        lemma_encodable_values_last(s.drop_first());
        assert(s.drop_first().last() == s.last());
    }
}

proof fn lemma_encodable_values_prefix(s: Seq<ValueModel>)
    requires
        s.len() > 0,
        encodable_values(s),
    ensures
        encodable_values(s.drop_last()),
    decreases s,
{
    if s.len() > 1 {
        lemma_encodable_values_prefix(s.drop_first());
        assert(s.drop_last().drop_first() =~= s.drop_first().drop_last());
    } else {
        assert(s.drop_last() =~= Seq::<ValueModel>::empty());
    }
}

proof fn lemma_encodable_pairs_last(s: Seq<(ValueModel, ValueModel)>)
    requires
        s.len() > 0,
        encodable_pairs(s),
    ensures
        encodable(s.last().0),
        encodable(s.last().1),
    decreases s,
{
    if s.len() > 1 {
        lemma_encodable_pairs_last(s.drop_first());
        assert(s.drop_first().last() == s.last());
    }
}

proof fn lemma_encodable_pairs_prefix(s: Seq<(ValueModel, ValueModel)>)
    requires
        s.len() > 0,
        encodable_pairs(s),
    ensures
        encodable_pairs(s.drop_last()),
    decreases s,
{
    if s.len() > 1 {
        lemma_encodable_pairs_prefix(s.drop_first());
        assert(s.drop_last().drop_first() =~= s.drop_first().drop_last());
    } else {
        assert(s.drop_last() =~= Seq::<(ValueModel, ValueModel)>::empty());
    }
}

/// The framing of an `n`-field struct: a map header when the configuration
/// packs structs as maps, else an array header.
pub open spec fn struct_len_enc(as_map: bool, n: int) -> Seq<u8> {
    if as_map {
        map_hdr_enc(n)
    } else {
        array_hdr_enc(n)
    }
}

/// The encoding of one struct field: the key (as a string) comes before the
/// value only when the configuration packs structs as maps.
pub open spec fn struct_field_enc(as_map: bool, key: Seq<u8>, v: ValueModel) -> Seq<u8> {
    if as_map {
        value_enc(ValueModel::Str(key)) + value_enc(v)
    } else {
        value_enc(v)
    }
}

/// The encoding of an enum variant identifier: the variant index as an
/// unsigned integer, or the variant name as a string, per configuration.
pub open spec fn variant_ident_enc(as_index: bool, index: u32, name: Seq<u8>) -> Seq<u8> {
    if as_index {
        uint_enc(index as u64)
    } else {
        value_enc(ValueModel::Str(name))
    }
}

/// Frames an `n`-field struct per the configuration's struct aspect.
pub fn write_struct_len<C: SerializerConfig>(cfg: &C, out: &mut Vec<u8>, len: u32)
    ensures
        final(out)@ == old(out)@ + struct_len_enc(cfg.spec_struct_map(), len as int),
{
    if cfg.struct_map() {
        write_map_len(out, len);
    } else {
        write_array_len(out, len);
    }
}

/// Writes one struct field: the key is emitted only under a map-framing
/// configuration, the value always.
pub fn write_struct_field<C: SerializerConfig>(
    cfg: &C,
    out: &mut Vec<u8>,
    key: &str,
    value: &Value<'_>,
) -> (r: Result<(), EncodeError>)
    requires
        key.spec_bytes().len() <= u32::MAX,
    ensures
        r is Ok <==> encodable(value@),
        r is Ok ==> final(out)@ == old(out)@ + struct_field_enc(
            cfg.spec_struct_map(),
            key.spec_bytes(),
            value@,
        ),
        r is Err ==> r matches Err(EncodeError::LengthOverflow(_)),
{
    if cfg.struct_map() {
        let key_bytes = key.as_bytes();
        if key_bytes.len() > 0xffffffffusize {
            return Err(EncodeError::LengthOverflow(key_bytes.len()));
        }
        write_str_len(out, key_bytes.len() as u32);
        push_bytes(out, key_bytes);
    }
    let r = write_value(out, value);
    proof {
        if r is Ok {
            assert(out@ =~= old(out)@ + struct_field_enc(
                cfg.spec_struct_map(),
                key.spec_bytes(),
                value@,
            ));
        }
    }
    r
}

/// Writes an enum variant identifier: the index as an unsigned integer or
/// the name as a string, per the configuration's variant aspect.
pub fn write_variant_ident<C: SerializerConfig>(cfg: &C, out: &mut Vec<u8>, index: u32, name: &str)
    requires
        name.spec_bytes().len() <= u32::MAX,
    ensures
        final(out)@ == old(out)@ + variant_ident_enc(
            cfg.spec_variant_index(),
            index,
            name.spec_bytes(),
        ),
{
    if cfg.variant_index() {
        write_uint(out, index as u64);
    } else {
        let name_bytes = name.as_bytes();
        write_str_len(out, name_bytes.len() as u32);
        push_bytes(out, name_bytes);
        proof {
            assert(out@ =~= old(out)@ + variant_ident_enc(
                cfg.spec_variant_index(),
                index,
                name.spec_bytes(),
            ));
        }
    }
}

/// Writes a non-unit enum variant: a one-entry map whose key is the variant
/// identifier and whose value is the payload.
pub fn write_variant<C: SerializerConfig>(
    cfg: &C,
    out: &mut Vec<u8>,
    index: u32,
    name: &str,
    payload: &Value<'_>,
) -> (r: Result<(), EncodeError>)
    requires
        name.spec_bytes().len() <= u32::MAX,
    ensures
        r is Ok <==> encodable(payload@),
        r is Ok ==> final(out)@ == old(out)@ + map_hdr_enc(1) + variant_ident_enc(
            cfg.spec_variant_index(),
            index,
            name.spec_bytes(),
        ) + value_enc(payload@),
        r is Err ==> r matches Err(EncodeError::LengthOverflow(_)),
{
    write_map_len(out, 1);
    write_variant_ident(cfg, out, index, name);
    write_value(out, payload)
}

/// Writes a unit struct, which encodes as the empty array.
pub fn write_unit_struct(out: &mut Vec<u8>)
    ensures
        final(out)@ == old(out)@ + array_hdr_enc(0),
{
    write_array_len(out, 0);
}

} // verus!
