//! The values the wire format carries.
//!
//! `Value` is the executable tree a decode produces and an encode
//! consumes; `SpecValue` is its mathematical model, used by every
//! contract.  Floating-point kinds are carried as their IEEE 754 bit
//! patterns, and text as its UTF-8 bytes; the wire holds nothing else
//! of either.

use vstd::prelude::*;

verus! {

use crate::wire::valid_text;

/// The mathematical model of a wire value.
pub enum SpecValue {
    Nil,
    Bool(bool),
    U8(u8),
    U16(u16),
    U32(u32),
    U64(u64),
    I8(i8),
    I16(i16),
    I32(i32),
    I64(i64),
    F32Bits(u32),
    F64Bits(u64),
    Text(Seq<u8>),
    List(Seq<SpecValue>),
    Dict(Seq<(SpecValue, SpecValue)>),
    ArrayBool(Seq<bool>),
    ArrayU8(Seq<u8>),
    ArrayU16(Seq<u16>),
    ArrayU32(Seq<u32>),
    ArrayU64(Seq<u64>),
    ArrayI8(Seq<i8>),
    ArrayI16(Seq<i16>),
    ArrayI32(Seq<i32>),
    ArrayI64(Seq<i64>),
    ArrayF32Bits(Seq<u32>),
    ArrayF64Bits(Seq<u64>),
}

impl SpecValue {
    /// A value the encoder may be asked to write: text holds valid UTF-8,
    /// and so does every text nested inside a container.
    pub open spec fn wf(self) -> bool
        decreases self,
    {
        match self {
            SpecValue::Text(bytes) => valid_text(bytes),
            SpecValue::List(items) => wf_items(items),
            SpecValue::Dict(entries) => wf_entries(entries),
            _ => true,
        }
    }
}

/// Consecutive list elements are all well-formed.
pub open spec fn wf_items(items: Seq<SpecValue>) -> bool
    decreases items,
{
    if items.len() == 0 {
        true
    } else {
        items[0].wf() && wf_items(items.subrange(1, items.len() as int))
    }
}

/// Consecutive map entries are all well-formed.
pub open spec fn wf_entries(entries: Seq<(SpecValue, SpecValue)>) -> bool
    decreases entries,
{
    if entries.len() == 0 {
        true
    } else {
        entries[0].0.wf() && entries[0].1.wf() && wf_entries(
            entries.subrange(1, entries.len() as int),
        )
    }
}

#[derive(Debug, PartialEq)]
/// A decoded or encodable wire value.
pub enum Value {
    Nil,
    Bool(bool),
    U8(u8),
    U16(u16),
    U32(u32),
    U64(u64),
    I8(i8),
    I16(i16),
    I32(i32),
    I64(i64),
    F32Bits(u32),
    F64Bits(u64),
    Text(Vec<u8>),
    List(Vec<Value>),
    Dict(Vec<(Value, Value)>),
    ArrayBool(Vec<bool>),
    ArrayU8(Vec<u8>),
    ArrayU16(Vec<u16>),
    ArrayU32(Vec<u32>),
    ArrayU64(Vec<u64>),
    ArrayI8(Vec<i8>),
    ArrayI16(Vec<i16>),
    ArrayI32(Vec<i32>),
    ArrayI64(Vec<i64>),
    ArrayF32Bits(Vec<u32>),
    ArrayF64Bits(Vec<u64>),
}

/// The models of consecutive list elements.
pub open spec fn view_items(items: Seq<Value>) -> Seq<SpecValue>
    decreases items,
{
    if items.len() == 0 {
        Seq::empty()
    } else {
        seq![items[0]@] + view_items(items.subrange(1, items.len() as int))
    }
}

/// The models of consecutive map entries.
pub open spec fn view_entries(entries: Seq<(Value, Value)>) -> Seq<(SpecValue, SpecValue)>
    decreases entries,
{
    if entries.len() == 0 {
        Seq::empty()
    } else {
        seq![(entries[0].0@, entries[0].1@)] + view_entries(
            entries.subrange(1, entries.len() as int),
        )
    }
}

/// One more element appends its model.
pub proof fn lemma_view_items_push(items: Seq<Value>, v: Value)
    ensures
        view_items(items.push(v)) == view_items(items).push(v@),
    decreases items.len(),
{
    if items.len() == 0 {
        assert(items.push(v)[0] == v);
        assert(items.push(v).subrange(1, 1) =~= Seq::<Value>::empty());
        assert(view_items(Seq::<Value>::empty()) == Seq::<SpecValue>::empty());
        assert(view_items(items.push(v)) =~= seq![v@]);
        assert(view_items(items).push(v@) =~= seq![v@]);
    } else {
        let rest = items.subrange(1, items.len() as int);
        assert(items.push(v)[0] == items[0]);
        assert(items.push(v).subrange(1, items.push(v).len() as int) =~= rest.push(v));
        lemma_view_items_push(rest, v);
        assert(view_items(items.push(v)) == seq![items[0]@] + view_items(rest).push(v@));
        assert(seq![items[0]@] + view_items(rest).push(v@) =~= (seq![items[0]@] + view_items(
            rest,
        )).push(v@));
    }
}

/// One more entry appends its model.
pub proof fn lemma_view_entries_push(entries: Seq<(Value, Value)>, kv: (Value, Value))
    ensures
        view_entries(entries.push(kv)) == view_entries(entries).push((kv.0@, kv.1@)),
    decreases entries.len(),
{
    if entries.len() == 0 {
        assert(entries.push(kv)[0] == kv);
        assert(entries.push(kv).subrange(1, 1) =~= Seq::<(Value, Value)>::empty());
        assert(view_entries(Seq::<(Value, Value)>::empty()) == Seq::<(SpecValue,
        SpecValue)>::empty());
        assert(view_entries(entries.push(kv)) =~= seq![(kv.0@, kv.1@)]);
        assert(view_entries(entries).push((kv.0@, kv.1@)) =~= seq![(kv.0@, kv.1@)]);
    } else {
        let rest = entries.subrange(1, entries.len() as int);
        assert(entries.push(kv)[0] == entries[0]);
        assert(entries.push(kv).subrange(1, entries.push(kv).len() as int) =~= rest.push(kv));
        lemma_view_entries_push(rest, kv);
        assert(view_entries(entries.push(kv)) == seq![(entries[0].0@, entries[0].1@)]
            + view_entries(rest).push((kv.0@, kv.1@)));
        assert(seq![(entries[0].0@, entries[0].1@)] + view_entries(rest).push((kv.0@, kv.1@)) =~= (
        seq![(entries[0].0@, entries[0].1@)] + view_entries(rest)).push((kv.0@, kv.1@)));
    }
}

impl View for Value {
    type V = SpecValue;

    open spec fn view(&self) -> SpecValue
        decreases self,
    {
        match self {
            Value::Nil => SpecValue::Nil,
            Value::Bool(b) => SpecValue::Bool(*b),
            Value::U8(x) => SpecValue::U8(*x),
            Value::U16(x) => SpecValue::U16(*x),
            Value::U32(x) => SpecValue::U32(*x),
            Value::U64(x) => SpecValue::U64(*x),
            Value::I8(x) => SpecValue::I8(*x),
            Value::I16(x) => SpecValue::I16(*x),
            Value::I32(x) => SpecValue::I32(*x),
            Value::I64(x) => SpecValue::I64(*x),
            Value::F32Bits(x) => SpecValue::F32Bits(*x),
            Value::F64Bits(x) => SpecValue::F64Bits(*x),
            Value::Text(bytes) => SpecValue::Text(bytes@),
            Value::List(items) => SpecValue::List(view_items(items@)),
            Value::Dict(entries) => SpecValue::Dict(view_entries(entries@)),
            Value::ArrayBool(xs) => SpecValue::ArrayBool(xs@),
            Value::ArrayU8(xs) => SpecValue::ArrayU8(xs@),
            Value::ArrayU16(xs) => SpecValue::ArrayU16(xs@),
            Value::ArrayU32(xs) => SpecValue::ArrayU32(xs@),
            Value::ArrayU64(xs) => SpecValue::ArrayU64(xs@),
            Value::ArrayI8(xs) => SpecValue::ArrayI8(xs@),
            Value::ArrayI16(xs) => SpecValue::ArrayI16(xs@),
            Value::ArrayI32(xs) => SpecValue::ArrayI32(xs@),
            Value::ArrayI64(xs) => SpecValue::ArrayI64(xs@),
            Value::ArrayF32Bits(xs) => SpecValue::ArrayF32Bits(xs@),
            Value::ArrayF64Bits(xs) => SpecValue::ArrayF64Bits(xs@),
        }
    }
}

} // verus!
