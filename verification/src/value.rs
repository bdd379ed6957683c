//! A dynamic value tree mirroring the serde data model.
//!
//! Dynamic calls carry values whose shape is only known from the schema
//! a device reports. [`Value`] is the runtime tree; [`SpecValue`] is its
//! mathematical image, used by the codec's specifications. Floating
//! point numbers are carried as their bit patterns: the codec only ever
//! moves their bytes.

use vstd::prelude::*;

verus! {

/// A dynamic runtime value.
pub enum Value {
    Bool(bool),
    I8(i8),
    I16(i16),
    I32(i32),
    I64(i64),
    I128(i128),
    U8(u8),
    U16(u16),
    U32(u32),
    U64(u64),
    U128(u128),
    /// An `f32`, as its bit pattern.
    F32Bits(u32),
    /// An `f64`, as its bit pattern.
    F64Bits(u64),
    Ch(char),
    Text(String),
    Bytes(Vec<u8>),
    Opt(Option<Box<Value>>),
    UnitVal,
    UnitStructVal,
    NewtypeVal(Box<Value>),
    SeqVal(Vec<Value>),
    TupleVal(Vec<Value>),
    TupleStructVal(Vec<Value>),
    MapVal(Vec<(Value, Value)>),
    StructVal(Vec<(String, Value)>),
    /// An enum value: the variant's name and its payload
    /// ([`Value::UnitVal`] for unit variants, a tuple for tuple
    /// variants, a struct for struct variants).
    EnumVal(String, Box<Value>),
}

/// The mathematical image of a [`Value`].
pub enum SpecValue {
    Bool(bool),
    I8(i8),
    I16(i16),
    I32(i32),
    I64(i64),
    I128(i128),
    U8(u8),
    U16(u16),
    U32(u32),
    U64(u64),
    U128(u128),
    F32Bits(u32),
    F64Bits(u64),
    Ch(char),
    Text(Seq<char>),
    Bytes(Seq<u8>),
    Opt(Option<Box<SpecValue>>),
    UnitVal,
    UnitStructVal,
    NewtypeVal(Box<SpecValue>),
    SeqVal(Seq<SpecValue>),
    TupleVal(Seq<SpecValue>),
    TupleStructVal(Seq<SpecValue>),
    MapVal(Seq<(SpecValue, SpecValue)>),
    StructVal(Seq<(Seq<char>, SpecValue)>),
    EnumVal(Seq<char>, Box<SpecValue>),
}

impl View for Value {
    type V = SpecValue;

    open spec fn view(&self) -> SpecValue
        decreases self,
    {
        match self {
            Value::Bool(b) => SpecValue::Bool(*b),
            Value::I8(v) => SpecValue::I8(*v),
            Value::I16(v) => SpecValue::I16(*v),
            Value::I32(v) => SpecValue::I32(*v),
            Value::I64(v) => SpecValue::I64(*v),
            Value::I128(v) => SpecValue::I128(*v),
            Value::U8(v) => SpecValue::U8(*v),
            Value::U16(v) => SpecValue::U16(*v),
            Value::U32(v) => SpecValue::U32(*v),
            Value::U64(v) => SpecValue::U64(*v),
            Value::U128(v) => SpecValue::U128(*v),
            Value::F32Bits(v) => SpecValue::F32Bits(*v),
            Value::F64Bits(v) => SpecValue::F64Bits(*v),
            Value::Ch(c) => SpecValue::Ch(*c),
            Value::Text(s) => SpecValue::Text(s@),
            Value::Bytes(b) => SpecValue::Bytes(b@),
            Value::Opt(o) => match o {
                Some(b) => SpecValue::Opt(Some(Box::new((**b)@))),
                None => SpecValue::Opt(None),
            },
            Value::UnitVal => SpecValue::UnitVal,
            Value::UnitStructVal => SpecValue::UnitStructVal,
            Value::NewtypeVal(b) => SpecValue::NewtypeVal(Box::new((**b)@)),
            Value::SeqVal(vs) => SpecValue::SeqVal(view_list(vs@)),
            Value::TupleVal(vs) => SpecValue::TupleVal(view_list(vs@)),
            Value::TupleStructVal(vs) => SpecValue::TupleStructVal(view_list(vs@)),
            Value::MapVal(ps) => SpecValue::MapVal(view_pairs(ps@)),
            Value::StructVal(fs) => SpecValue::StructVal(view_fields(fs@)),
            Value::EnumVal(n, b) => SpecValue::EnumVal(n@, Box::new((**b)@)),
        }
    }
}

/// The images of a list of values.
pub open spec fn view_list(vs: Seq<Value>) -> Seq<SpecValue>
    decreases vs,
{
    if vs.len() == 0 {
        Seq::empty()
    } else {
        seq![vs[0]@] + view_list(vs.skip(1))
    }
}

/// The images of a list of key/value pairs.
pub open spec fn view_pairs(ps: Seq<(Value, Value)>) -> Seq<(SpecValue, SpecValue)>
    decreases ps,
{
    if ps.len() == 0 {
        Seq::empty()
    } else {
        seq![(ps[0].0@, ps[0].1@)] + view_pairs(ps.skip(1))
    }
}

/// The images of a list of named fields.
pub open spec fn view_fields(fs: Seq<(String, Value)>) -> Seq<(Seq<char>, SpecValue)>
    decreases fs,
{
    if fs.len() == 0 {
        Seq::empty()
    } else {
        seq![(fs[0].0@, fs[0].1@)] + view_fields(fs.skip(1))
    }
}

} // verus!
