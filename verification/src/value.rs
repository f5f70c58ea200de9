//! The wire-level data model: every MessagePack value decodes to one of these
//! shapes, and every one of these shapes has a canonical encoding.
//!
//! String, binary and ext payloads borrow from the input buffer, so decoding
//! from a slice copies no payload bytes.

use vstd::prelude::*;

verus! {

/// A MessagePack value, as read from or written to the wire.
///
/// Integers are normalized by sign, not by wire width: every non-negative
/// integer is a `Uint` and every negative one an `Int`, whichever of the
/// twelve integer markers carried it. Floats are carried as their IEEE 754
/// bit patterns. `Str` holds the raw bytes of a string value, which the wire
/// format does not guarantee to be valid UTF-8.
#[derive(Debug, PartialEq)]
pub enum Value<'a> {
    /// `nil`.
    Nil,
    /// A boolean.
    Bool(bool),
    /// A non-negative integer.
    Uint(u64),
    /// A negative integer.
    Int(i64),
    /// A 32-bit float, by bit pattern.
    F32Bits(u32),
    /// A 64-bit float, by bit pattern.
    F64Bits(u64),
    /// A string value: the raw bytes behind a `str` family marker.
    Str(&'a [u8]),
    /// A byte array behind a `bin` family marker.
    Bin(&'a [u8]),
    /// An array of values.
    Array(Vec<Value<'a>>),
    /// A map, as the sequence of its entries in wire order.
    Mapping(Vec<(Value<'a>, Value<'a>)>),
    /// An ext value: a signed 8-bit tag and an opaque payload.
    Ext(i8, &'a [u8]),
}

/// The mathematical shape of a [`Value`]: byte payloads and element vectors
/// become sequences.
pub enum ValueModel {
    Nil,
    Bool(bool),
    Uint(u64),
    Int(i64),
    F32Bits(u32),
    F64Bits(u64),
    Str(Seq<u8>),
    Bin(Seq<u8>),
    Array(Seq<ValueModel>),
    Mapping(Seq<(ValueModel, ValueModel)>),
    Ext(i8, Seq<u8>),
}

/// The model of a value.
pub open spec fn value_model<'a>(v: Value<'a>) -> ValueModel
    decreases v,
{
    match v {
        Value::Nil => ValueModel::Nil,
        Value::Bool(b) => ValueModel::Bool(b),
        Value::Uint(u) => ValueModel::Uint(u),
        Value::Int(i) => ValueModel::Int(i),
        Value::F32Bits(b) => ValueModel::F32Bits(b),
        Value::F64Bits(b) => ValueModel::F64Bits(b),
        Value::Str(b) => ValueModel::Str(b@),
        Value::Bin(b) => ValueModel::Bin(b@),
        Value::Array(vs) => ValueModel::Array(value_models(vs@)),
        Value::Mapping(ps) => ValueModel::Mapping(pair_models(ps@)),
        Value::Ext(t, b) => ValueModel::Ext(t, b@),
    }
}

/// The models of a sequence of values, element by element.
pub open spec fn value_models<'a>(s: Seq<Value<'a>>) -> Seq<ValueModel>
    decreases s,
{
    if s.len() == 0 {
        Seq::empty()
    } else {
        value_models(s.drop_last()).push(value_model(s.last()))
    }
}

/// The models of a sequence of key-value pairs, entry by entry.
pub open spec fn pair_models<'a>(s: Seq<(Value<'a>, Value<'a>)>) -> Seq<(ValueModel, ValueModel)>
    decreases s,
{
    if s.len() == 0 {
        Seq::empty()
    } else {
        pair_models(s.drop_last()).push((value_model(s.last().0), value_model(s.last().1)))
    }
}

impl<'a> View for Value<'a> {
    type V = ValueModel;

    open spec fn view(&self) -> ValueModel {
        value_model(*self)
    }
}

/// Whether a value can be put on the wire as it stands: payload and container
/// lengths fit the 32-bit length headers, and the integer variants respect
/// their sign normalization.
pub open spec fn wf_value(v: ValueModel) -> bool
    decreases v,
{
    match v {
        ValueModel::Int(i) => i < 0,
        ValueModel::Str(b) => b.len() <= u32::MAX,
        ValueModel::Bin(b) => b.len() <= u32::MAX,
        ValueModel::Ext(_, b) => b.len() <= u32::MAX,
        ValueModel::Array(s) => s.len() <= u32::MAX && wf_values(s),
        ValueModel::Mapping(s) => s.len() <= u32::MAX && wf_pairs(s),
        _ => true,
    }
}

pub open spec fn wf_values(s: Seq<ValueModel>) -> bool
    decreases s,
{
    s.len() == 0 || (wf_value(s.first()) && wf_values(s.drop_first()))
}

pub open spec fn wf_pairs(s: Seq<(ValueModel, ValueModel)>) -> bool
    decreases s,
{
    s.len() == 0 || (wf_value(s.first().0) && wf_value(s.first().1) && wf_pairs(s.drop_first()))
}

/// How many levels of depth-counted descent decoding this value takes:
/// arrays, maps and ext values each cost one level plus whatever their
/// contents cost.
pub open spec fn nesting(v: ValueModel) -> nat
    decreases v,
{
    match v {
        ValueModel::Array(s) => 1 + nesting_values(s),
        ValueModel::Mapping(s) => 1 + nesting_pairs(s),
        ValueModel::Ext(_, _) => 1,
        _ => 0,
    }
}

pub open spec fn nesting_values(s: Seq<ValueModel>) -> nat
    decreases s,
{
    if s.len() == 0 {
        0
    } else {
        let h = nesting(s.first());
        let t = nesting_values(s.drop_first());
        if h >= t {
            h
        } else {
            t
        }
    }
}

pub open spec fn nesting_pairs(s: Seq<(ValueModel, ValueModel)>) -> nat
    decreases s,
{
    if s.len() == 0 {
        0
    } else {
        let k = nesting(s.first().0);
        let v = nesting(s.first().1);
        let h = if k >= v {
            k
        } else {
            v
        };
        let t = nesting_pairs(s.drop_first());
        if h >= t {
            h
        } else {
            t
        }
    }
}

} // verus!
