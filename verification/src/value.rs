//! The dynamically typed value that `decode_value` produces and
//! `encode_value` writes, and its mathematical model.
use vstd::prelude::*;

verus! {

/// A MessagePack value as read off the wire.
///
/// Floating-point values are kept as their IEEE-754 bit patterns:
/// `Float` holds the bits of an `f32`, `Double` those of an `f64`.
#[derive(Debug, PartialEq)]
pub enum Value {
    Nil,
    Boolean(bool),
    Integer(i64),
    Unsigned(u64),
    Float(u32),
    Double(u64),
    Array(Vec<Value>),
    Mapping(Vec<(Value, Value)>),
    Str(Vec<u8>),
    Binary(Vec<u8>),
    Extended(i8, Vec<u8>),
}

/// The model of a [`Value`]: the same tree, with sequences in place of vectors.
pub enum SpecValue {
    Nil,
    Boolean(bool),
    Integer(i64),
    Unsigned(u64),
    Float(u32),
    Double(u64),
    Array(Seq<SpecValue>),
    Mapping(Seq<(SpecValue, SpecValue)>),
    Str(Seq<u8>),
    Binary(Seq<u8>),
    Extended(i8, Seq<u8>),
}

/// The models of a sequence of values, in order.
pub open spec fn values_view(s: Seq<Value>) -> Seq<SpecValue>
    decreases s,
{
    if s.len() == 0 {
        Seq::empty()
    } else {
        values_view(s.drop_last()).push(value_view(s.last()))
    }
}

/// The models of a sequence of key/value pairs, in order.
pub open spec fn pairs_view(s: Seq<(Value, Value)>) -> Seq<(SpecValue, SpecValue)>
    decreases s,
{
    if s.len() == 0 {
        Seq::empty()
    } else {
        pairs_view(s.drop_last()).push((value_view(s.last().0), value_view(s.last().1)))
    }
}

/// The model of one value.
pub open spec fn value_view(v: Value) -> SpecValue
    decreases v,
{
    match v {
        Value::Nil => SpecValue::Nil,
        Value::Boolean(b) => SpecValue::Boolean(b),
        Value::Integer(i) => SpecValue::Integer(i),
        Value::Unsigned(u) => SpecValue::Unsigned(u),
        Value::Float(f) => SpecValue::Float(f),
        Value::Double(d) => SpecValue::Double(d),
        Value::Array(a) => SpecValue::Array(values_view(a@)),
        Value::Mapping(m) => SpecValue::Mapping(pairs_view(m@)),
        Value::Str(s) => SpecValue::Str(s@),
        Value::Binary(b) => SpecValue::Binary(b@),
        Value::Extended(t, d) => SpecValue::Extended(t, d@),
    }
}

impl View for Value {
    type V = SpecValue;

    open spec fn view(&self) -> SpecValue {
        value_view(*self)
    }
}

/// `values_view` keeps the length and maps each element to its model.
pub proof fn lemma_values_view(s: Seq<Value>)
    ensures
        values_view(s).len() == s.len(),
        forall|i: int| 0 <= i < s.len() ==> #[trigger] values_view(s)[i] == value_view(s[i]),
    decreases s.len(),
{
    if s.len() > 0 {
        lemma_values_view(s.drop_last());
    }
}

/// `pairs_view` keeps the length and maps each pair to the models of its two halves.
pub proof fn lemma_pairs_view(s: Seq<(Value, Value)>)
    ensures
        pairs_view(s).len() == s.len(),
        forall|i: int|
            0 <= i < s.len() ==> #[trigger] pairs_view(s)[i] == (value_view(s[i].0), value_view(s[i].1)),
    decreases s.len(),
{
    if s.len() > 0 {
        lemma_pairs_view(s.drop_last());
    }
}

} // verus!
