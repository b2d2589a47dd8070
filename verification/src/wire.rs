//! The wire grammar.
//!
//! These specification functions say, byte for byte, what the format is:
//! how content bytes are escaped inside delimited regions, how a region
//! is scanned to its first unescaped end delimiter, what every value
//! kind looks like on the wire (`wire_of`), and what a byte string
//! parses to (`parse_value`).  The executable encoder and decoder are
//! verified against exactly these functions.

use vstd::prelude::*;

verus! {

use crate::constants::{Type, ARRAY_DELIMIT, ESCAPE, LIST_BEGIN, LIST_END, MAP_BEGIN, MAP_END,
    STRING_DELIMIT};
use crate::element::{be_bytes, be_value};
use crate::value::SpecValue;

/// Why a decode failed.
#[derive(Clone, Copy, Debug, PartialEq, Eq, Structural)]
pub enum ErrorKind {
    /// The byte source was exhausted in the middle of a value.
    UnexpectedEnd,
    /// A delimiter position held some other byte.
    UnexpectedDelimiter,
    /// A tag byte outside the enumeration.
    UnknownTypeTag,
    /// A scalar payload shorter than its width.
    InvalidLength,
    /// A payload byte outside its kind's value space.
    InvalidValue,
    /// String content that is not valid UTF-8.
    InvalidUtf8,
    /// The caller violated the map or sequence access protocol.
    Misuse,
    /// An error adopted from a collaborator, such as the byte source.
    Custom,
}

/// The outcome of parsing a prefix of a byte string.
pub enum Parsed<T> {
    /// A well-formed item and the number of bytes it occupied.
    Found(T, nat),
    /// The bytes ran out before the item was complete.
    Short,
    /// The bytes do not encode an item of the expected shape.
    Fail(ErrorKind),
}

/// Text content is valid UTF-8.
pub open spec fn valid_text(bytes: Seq<u8>) -> bool {
    vstd::utf8::valid_utf8(bytes)
}

/// The elements of a sequence of chunks, in order.
pub open spec fn flat_elems<T>(cs: Seq<Vec<T>>) -> Seq<T> {
    cs.map_values(|c: Vec<T>| c@).flatten()
}

/// The flattened view of a sequence of byte chunks.
pub open spec fn chunks_flat(cs: Seq<Vec<u8>>) -> Seq<u8> {
    flat_elems(cs)
}

/// Appending a chunk appends its elements.
pub proof fn lemma_flat_elems_push<T>(cs: Seq<Vec<T>>, c: Vec<T>)
    ensures
        flat_elems(cs.push(c)) == flat_elems(cs) + c@,
{
    let m = cs.map_values(|x: Vec<T>| x@);
    assert(cs.push(c).map_values(|x: Vec<T>| x@) =~= m.push(c@));
    m.lemma_flatten_push(c@);
    assert(m.push(c@).flatten() =~= m.flatten() + c@);
}

/// No chunks hold no elements.
pub proof fn lemma_flat_elems_empty<T>()
    ensures
        flat_elems(Seq::<Vec<T>>::empty()) == Seq::<T>::empty(),
{
    assert(Seq::<Vec<T>>::empty().map_values(|c: Vec<T>| c@) =~= Seq::<Seq<T>>::empty());
    assert(Seq::<Seq<T>>::empty().flatten() =~= Seq::<T>::empty());
}

/// Whether `b` must be escaped inside a region delimited by bytes of
/// `ctl`: every control byte is escaped, and so is the escape byte
/// itself.
pub open spec fn needs_escape(b: u8, ctl: Seq<u8>) -> bool {
    ctl.contains(b) || b == ESCAPE
}

/// Insert one escape byte before every occurrence of a control byte or
/// of the escape byte itself.
pub open spec fn escape_with(s: Seq<u8>, ctl: Seq<u8>) -> Seq<u8>
    decreases s.len(),
{
    if s.len() == 0 {
        Seq::empty()
    } else if needs_escape(s[0], ctl) {
        seq![ESCAPE, s[0]] + escape_with(s.skip(1), ctl)
    } else {
        seq![s[0]] + escape_with(s.skip(1), ctl)
    }
}

/// Remove one escape byte before every escaped byte.  A trailing escape
/// with nothing after it escapes nothing and is dropped.
pub open spec fn unescape(s: Seq<u8>) -> Seq<u8>
    decreases s.len(),
{
    if s.len() == 0 {
        Seq::empty()
    } else if s[0] == ESCAPE {
        if s.len() == 1 {
            Seq::empty()
        } else {
            seq![s[1]] + unescape(s.skip(2))
        }
    } else {
        seq![s[0]] + unescape(s.skip(1))
    }
}

/// The byte string is a whole number of escape units: every escape
/// byte is followed by the byte it protects.
pub open spec fn esc_clean(s: Seq<u8>) -> bool
    decreases s.len(),
{
    if s.len() == 0 {
        true
    } else if s[0] == ESCAPE {
        s.len() >= 2 && esc_clean(s.skip(2))
    } else {
        esc_clean(s.skip(1))
    }
}

/// Unescaping distributes over concatenation at an escape-unit
/// boundary.
pub proof fn lemma_unescape_append_clean(a: Seq<u8>, b: Seq<u8>)
    requires
        esc_clean(a),
    ensures
        unescape(a + b) == unescape(a) + unescape(b),
    decreases a.len(),
{
    if a.len() == 0 {
        assert(a + b =~= b);
        assert(unescape(a) + unescape(b) =~= unescape(b));
    } else if a[0] == ESCAPE {
        assert((a + b)[0] == ESCAPE);
        assert((a + b)[1] == a[1]);
        assert((a + b).skip(2) =~= a.skip(2) + b);
        lemma_unescape_append_clean(a.skip(2), b);
        assert(unescape(a) + unescape(b) =~= seq![a[1]] + (unescape(a.skip(2)) + unescape(b)));
    } else {
        assert((a + b)[0] == a[0]);
        assert((a + b).skip(1) =~= a.skip(1) + b);
        lemma_unescape_append_clean(a.skip(1), b);
        assert(unescape(a) + unescape(b) =~= seq![a[0]] + (unescape(a.skip(1)) + unescape(b)));
    }
}

/// Cleanliness is preserved by concatenation.
pub proof fn lemma_esc_clean_append(a: Seq<u8>, b: Seq<u8>)
    requires
        esc_clean(a),
        esc_clean(b),
    ensures
        esc_clean(a + b),
    decreases a.len(),
{
    if a.len() == 0 {
        assert(a + b =~= b);
    } else if a[0] == ESCAPE {
        assert((a + b)[0] == ESCAPE);
        assert((a + b).skip(2) =~= a.skip(2) + b);
        lemma_esc_clean_append(a.skip(2), b);
    } else {
        assert((a + b)[0] == a[0]);
        assert((a + b).skip(1) =~= a.skip(1) + b);
        lemma_esc_clean_append(a.skip(1), b);
    }
}

/// The number of bytes before the first unescaped `end`, or `None` if
/// the bytes run out first.  An escaped byte never terminates the scan,
/// even if it equals `end`.
pub open spec fn scan_to_end(s: Seq<u8>, end: u8) -> Option<nat>
    decreases s.len(),
{
    if s.len() == 0 {
        None
    } else if s[0] == end {
        Some(0)
    } else if s[0] == ESCAPE {
        if s.len() == 1 {
            None
        } else {
            match scan_to_end(s.skip(2), end) {
                Some(n) => Some(n + 2),
                None => None,
            }
        }
    } else {
        match scan_to_end(s.skip(1), end) {
            Some(n) => Some(n + 1),
            None => None,
        }
    }
}

/// Like `scan_to_end` for a bulk array region, but stopping once
/// `budget` unescaped content bytes have been passed.  An escape byte
/// and the byte it protects spend one unit of budget together.
pub open spec fn scan_bulk(s: Seq<u8>, budget: nat) -> Option<nat>
    decreases s.len(),
{
    if budget == 0 {
        Some(0)
    } else if s.len() == 0 {
        None
    } else if s[0] == ARRAY_DELIMIT {
        Some(0)
    } else if s[0] == ESCAPE {
        if s.len() == 1 {
            None
        } else {
            match scan_bulk(s.skip(2), (budget - 1) as nat) {
                Some(n) => Some(n + 2),
                None => None,
            }
        }
    } else {
        match scan_bulk(s.skip(1), (budget - 1) as nat) {
            Some(n) => Some(n + 1),
            None => None,
        }
    }
}

/// The unsigned readings of consecutive `width`-byte runs.
pub open spec fn be_chunks(content: Seq<u8>, width: nat) -> Seq<nat>
    recommends
        width > 0,
{
    Seq::new(
        content.len() / width,
        |j: int| be_value(content.subrange(j * width, (j + 1) * width)),
    )
}

/// Whether raw element readings are in the value space of kind `k`.
/// Only booleans restrict it: their one payload byte must be 0 or 1.
pub open spec fn raws_ok(k: Type, raws: Seq<nat>) -> bool {
    k == Type::Bool ==> forall|i: int| 0 <= i < raws.len() ==> #[trigger] raws[i] <= 1
}

/// The bulk-array value of kind `k` with the given raw element readings.
pub open spec fn array_of(k: Type, raws: Seq<nat>) -> SpecValue
    recommends
        k != Type::Nil,
        raws_ok(k, raws),
{
    match k {
        Type::Bool => SpecValue::ArrayBool(raws.map_values(|r: nat| r == 1)),
        Type::U8 => SpecValue::ArrayU8(raws.map_values(|r: nat| r as u8)),
        Type::U16 => SpecValue::ArrayU16(raws.map_values(|r: nat| r as u16)),
        Type::U32 => SpecValue::ArrayU32(raws.map_values(|r: nat| r as u32)),
        Type::U64 => SpecValue::ArrayU64(raws.map_values(|r: nat| r as u64)),
        Type::I8 => SpecValue::ArrayI8(raws.map_values(|r: nat| r as u8 as i8)),
        Type::I16 => SpecValue::ArrayI16(raws.map_values(|r: nat| r as u16 as i16)),
        Type::I32 => SpecValue::ArrayI32(raws.map_values(|r: nat| r as u32 as i32)),
        Type::I64 => SpecValue::ArrayI64(raws.map_values(|r: nat| r as u64 as i64)),
        Type::F32 => SpecValue::ArrayF32Bits(raws.map_values(|r: nat| r as u32)),
        Type::F64 => SpecValue::ArrayF64Bits(raws.map_values(|r: nat| r as u64)),
        Type::Nil => SpecValue::Nil,
    }
}

/// The raw element readings of a bulk-array value of kind `k`.
pub open spec fn raws_of(v: SpecValue) -> Seq<nat> {
    match v {
        SpecValue::ArrayBool(xs) => xs.map_values(|b: bool| if b { 1nat } else { 0nat }),
        SpecValue::ArrayU8(xs) => xs.map_values(|x: u8| x as nat),
        SpecValue::ArrayU16(xs) => xs.map_values(|x: u16| x as nat),
        SpecValue::ArrayU32(xs) => xs.map_values(|x: u32| x as nat),
        SpecValue::ArrayU64(xs) => xs.map_values(|x: u64| x as nat),
        SpecValue::ArrayI8(xs) => xs.map_values(|x: i8| (x as u8) as nat),
        SpecValue::ArrayI16(xs) => xs.map_values(|x: i16| (x as u16) as nat),
        SpecValue::ArrayI32(xs) => xs.map_values(|x: i32| (x as u32) as nat),
        SpecValue::ArrayI64(xs) => xs.map_values(|x: i64| (x as u64) as nat),
        SpecValue::ArrayF32Bits(xs) => xs.map_values(|x: u32| x as nat),
        SpecValue::ArrayF64Bits(xs) => xs.map_values(|x: u64| x as nat),
        _ => Seq::empty(),
    }
}

/// The raw content bytes of a bulk array: each element's fixed-width
/// big-endian run, concatenated, before escaping.
pub open spec fn bulk_content(raws: Seq<nat>, width: nat) -> Seq<u8> {
    raws.map_values(|r: nat| be_bytes(r, width)).flatten()
}

/// The scalar value of kind `k` with unsigned payload reading `r`, for
/// every kind whose payload is unrestricted.  Booleans are handled at
/// the use site, where payloads other than 0 and 1 are rejected.
pub open spec fn scalar_of(k: Type, r: nat) -> SpecValue
    recommends
        k != Type::Nil,
{
    match k {
        Type::Bool => SpecValue::Bool(r == 1),
        Type::U8 => SpecValue::U8(r as u8),
        Type::U16 => SpecValue::U16(r as u16),
        Type::U32 => SpecValue::U32(r as u32),
        Type::U64 => SpecValue::U64(r as u64),
        Type::I8 => SpecValue::I8(r as u8 as i8),
        Type::I16 => SpecValue::I16(r as u16 as i16),
        Type::I32 => SpecValue::I32(r as u32 as i32),
        Type::I64 => SpecValue::I64(r as u64 as i64),
        Type::F32 => SpecValue::F32Bits(r as u32),
        Type::F64 => SpecValue::F64Bits(r as u64),
        Type::Nil => SpecValue::Nil,
    }
}

/// The unsigned payload reading of a scalar value, and its kind.
pub open spec fn scalar_raw(v: SpecValue) -> nat {
    match v {
        SpecValue::Bool(b) => if b {
            1nat
        } else {
            0nat
        },
        SpecValue::U8(x) => x as nat,
        SpecValue::U16(x) => x as nat,
        SpecValue::U32(x) => x as nat,
        SpecValue::U64(x) => x as nat,
        SpecValue::I8(x) => (x as u8) as nat,
        SpecValue::I16(x) => (x as u16) as nat,
        SpecValue::I32(x) => (x as u32) as nat,
        SpecValue::I64(x) => (x as u64) as nat,
        SpecValue::F32Bits(x) => x as nat,
        SpecValue::F64Bits(x) => x as nat,
        _ => 0,
    }
}

/// The scalar or array element kind of a value, where it has one.
pub open spec fn kind_of(v: SpecValue) -> Type {
    match v {
        SpecValue::Nil => Type::Nil,
        SpecValue::Bool(_) => Type::Bool,
        SpecValue::U8(_) => Type::U8,
        SpecValue::U16(_) => Type::U16,
        SpecValue::U32(_) => Type::U32,
        SpecValue::U64(_) => Type::U64,
        SpecValue::I8(_) => Type::I8,
        SpecValue::I16(_) => Type::I16,
        SpecValue::I32(_) => Type::I32,
        SpecValue::I64(_) => Type::I64,
        SpecValue::F32Bits(_) => Type::F32,
        SpecValue::F64Bits(_) => Type::F64,
        SpecValue::ArrayBool(_) => Type::Bool,
        SpecValue::ArrayU8(_) => Type::U8,
        SpecValue::ArrayU16(_) => Type::U16,
        SpecValue::ArrayU32(_) => Type::U32,
        SpecValue::ArrayU64(_) => Type::U64,
        SpecValue::ArrayI8(_) => Type::I8,
        SpecValue::ArrayI16(_) => Type::I16,
        SpecValue::ArrayI32(_) => Type::I32,
        SpecValue::ArrayI64(_) => Type::I64,
        SpecValue::ArrayF32Bits(_) => Type::F32,
        SpecValue::ArrayF64Bits(_) => Type::F64,
        SpecValue::Text(_) => Type::Nil,
        SpecValue::List(_) => Type::Nil,
        SpecValue::Dict(_) => Type::Nil,
    }
}

/// The control set of a string region.
pub open spec fn string_ctl() -> Seq<u8> {
    seq![STRING_DELIMIT]
}

/// The control set of a bulk-array region.
pub open spec fn array_ctl() -> Seq<u8> {
    seq![ARRAY_DELIMIT]
}

/// The wire bytes of consecutive list elements.
pub open spec fn wire_list(items: Seq<SpecValue>) -> Seq<u8>
    decreases items,
{
    if items.len() == 0 {
        Seq::empty()
    } else {
        wire_of(items[0]) + wire_list(items.subrange(1, items.len() as int))
    }
}

/// The wire bytes of consecutive map entries: each key immediately
/// followed by its value.
pub open spec fn wire_entries(entries: Seq<(SpecValue, SpecValue)>) -> Seq<u8>
    decreases entries,
{
    if entries.len() == 0 {
        Seq::empty()
    } else {
        wire_of(entries[0].0) + wire_of(entries[0].1) + wire_entries(
            entries.subrange(1, entries.len() as int),
        )
    }
}

/// The exact bytes of a value on the wire.
pub open spec fn wire_of(v: SpecValue) -> Seq<u8>
    decreases v,
{
    match v {
        SpecValue::Nil => seq![Type::Nil.tag()],
        SpecValue::Text(bytes) => seq![STRING_DELIMIT] + escape_with(bytes, string_ctl())
            + seq![STRING_DELIMIT],
        SpecValue::List(items) => seq![LIST_BEGIN] + wire_list(items) + seq![LIST_END],
        SpecValue::Dict(entries) => seq![MAP_BEGIN] + wire_entries(entries) + seq![MAP_END],
        SpecValue::Bool(_) | SpecValue::U8(_) | SpecValue::U16(_) | SpecValue::U32(_)
            | SpecValue::U64(_) | SpecValue::I8(_) | SpecValue::I16(_) | SpecValue::I32(_)
            | SpecValue::I64(_) | SpecValue::F32Bits(_) | SpecValue::F64Bits(_) => {
            let k = kind_of(v);
            seq![k.tag()] + be_bytes(scalar_raw(v), k.width())
        },
        SpecValue::ArrayBool(_) | SpecValue::ArrayU8(_) | SpecValue::ArrayU16(_)
            | SpecValue::ArrayU32(_) | SpecValue::ArrayU64(_) | SpecValue::ArrayI8(_)
            | SpecValue::ArrayI16(_) | SpecValue::ArrayI32(_) | SpecValue::ArrayI64(_)
            | SpecValue::ArrayF32Bits(_) | SpecValue::ArrayF64Bits(_) => {
            let k = kind_of(v);
            seq![ARRAY_DELIMIT, k.tag()] + escape_with(
                bulk_content(raws_of(v), k.width()),
                array_ctl(),
            ) + seq![ARRAY_DELIMIT]
        },
    }
}

/// Flattening no chunks yields no bytes.
pub proof fn lemma_chunks_flat_empty()
    ensures
        chunks_flat(Seq::empty()) == Seq::<u8>::empty(),
{
    assert(Seq::<Vec<u8>>::empty().map_values(|c: Vec<u8>| c@) =~= Seq::<Seq<u8>>::empty());
    assert(Seq::<Seq<u8>>::empty().flatten() =~= Seq::<u8>::empty());
}

/// Appending a chunk appends its bytes to the flattened view.
pub proof fn lemma_chunks_flat_push(cs: Seq<Vec<u8>>, c: Vec<u8>)
    ensures
        chunks_flat(cs.push(c)) == chunks_flat(cs) + c@,
{
    let m = cs.map_values(|x: Vec<u8>| x@);
    assert(cs.push(c).map_values(|x: Vec<u8>| x@) =~= m.push(c@));
    m.lemma_flatten_push(c@);
    assert(m.push(c@).flatten() =~= m.flatten() + c@);
}

/// Concatenating chunk sequences concatenates their flattened views.
pub proof fn lemma_chunks_flat_concat(a: Seq<Vec<u8>>, b: Seq<Vec<u8>>)
    ensures
        chunks_flat(a + b) == chunks_flat(a) + chunks_flat(b),
{
    let ma = a.map_values(|x: Vec<u8>| x@);
    let mb = b.map_values(|x: Vec<u8>| x@);
    assert((a + b).map_values(|x: Vec<u8>| x@) =~= ma + mb);
    vstd::seq_lib::lemma_flatten_concat(ma, mb);
    assert((ma + mb).flatten() =~= ma.flatten() + mb.flatten());
}

/// Escaping distributes over concatenation.
pub proof fn lemma_escape_append(a: Seq<u8>, b: Seq<u8>, ctl: Seq<u8>)
    ensures
        escape_with(a + b, ctl) == escape_with(a, ctl) + escape_with(b, ctl),
    decreases a.len(),
{
    if a.len() == 0 {
        assert(a + b =~= b);
        assert(escape_with(a, ctl) + escape_with(b, ctl) =~= escape_with(b, ctl));
    } else {
        assert((a + b)[0] == a[0]);
        assert((a + b).skip(1) =~= a.skip(1) + b);
        lemma_escape_append(a.skip(1), b, ctl);
        assert(escape_with(a, ctl) + escape_with(b, ctl) =~= (if needs_escape(a[0], ctl) {
            seq![ESCAPE, a[0]]
        } else {
            seq![a[0]]
        }) + (escape_with(a.skip(1), ctl) + escape_with(b, ctl)));
    }
}

/// Escaping one more byte appends its escaped form.
pub proof fn lemma_escape_push(s: Seq<u8>, b: u8, ctl: Seq<u8>)
    ensures
        escape_with(s.push(b), ctl) == escape_with(s, ctl) + (if needs_escape(b, ctl) {
            seq![ESCAPE, b]
        } else {
            seq![b]
        }),
{
    assert(s.push(b) =~= s + seq![b]);
    lemma_escape_append(s, seq![b], ctl);
    let one = seq![b];
    assert(one.skip(1) =~= Seq::<u8>::empty());
    assert(escape_with(Seq::<u8>::empty(), ctl) == Seq::<u8>::empty());
    if needs_escape(b, ctl) {
        assert(escape_with(one, ctl) =~= seq![ESCAPE, b]);
    } else {
        assert(escape_with(one, ctl) =~= seq![b]);
    }
}

/// One more list element appends its wire bytes.
pub proof fn lemma_wire_list_push(items: Seq<SpecValue>, v: SpecValue)
    ensures
        wire_list(items.push(v)) == wire_list(items) + wire_of(v),
    decreases items.len(),
{
    if items.len() == 0 {
        assert(items.push(v)[0] == v);
        assert(items.push(v).subrange(1, 1) =~= Seq::<SpecValue>::empty());
        assert(wire_list(Seq::<SpecValue>::empty()) == Seq::<u8>::empty());
        assert(wire_list(items.push(v)) =~= wire_of(v));
        assert(wire_list(items) + wire_of(v) =~= wire_of(v));
    } else {
        let rest = items.subrange(1, items.len() as int);
        assert(items.push(v)[0] == items[0]);
        assert(items.push(v).subrange(1, items.push(v).len() as int) =~= rest.push(v));
        lemma_wire_list_push(rest, v);
        assert(wire_list(items) + wire_of(v) =~= wire_of(items[0]) + (wire_list(rest) + wire_of(
            v,
        )));
    }
}

/// One more map entry appends its key's and value's wire bytes.
pub proof fn lemma_wire_entries_push(entries: Seq<(SpecValue, SpecValue)>, kv: (SpecValue, SpecValue))
    ensures
        wire_entries(entries.push(kv)) == wire_entries(entries) + wire_of(kv.0) + wire_of(kv.1),
    decreases entries.len(),
{
    if entries.len() == 0 {
        assert(entries.push(kv)[0] == kv);
        assert(entries.push(kv).subrange(1, 1) =~= Seq::<(SpecValue, SpecValue)>::empty());
        assert(wire_entries(Seq::<(SpecValue, SpecValue)>::empty()) == Seq::<u8>::empty());
        assert(wire_entries(entries.push(kv)) =~= wire_of(kv.0) + wire_of(kv.1));
        assert(wire_entries(entries) + wire_of(kv.0) + wire_of(kv.1) =~= wire_of(kv.0) + wire_of(
            kv.1,
        ));
    } else {
        let rest = entries.subrange(1, entries.len() as int);
        assert(entries.push(kv)[0] == entries[0]);
        assert(entries.push(kv).subrange(1, entries.push(kv).len() as int) =~= rest.push(kv));
        lemma_wire_entries_push(rest, kv);
        assert(wire_entries(entries) + wire_of(kv.0) + wire_of(kv.1) =~= wire_of(entries[0].0)
            + wire_of(entries[0].1) + (wire_entries(rest) + wire_of(kv.0) + wire_of(kv.1)));
    }
}

/// One more element appends its big-endian run to the bulk content.
pub proof fn lemma_bulk_content_push(raws: Seq<nat>, r: nat, width: nat)
    ensures
        bulk_content(raws.push(r), width) == bulk_content(raws, width) + be_bytes(r, width),
{
    let f = |x: nat| be_bytes(x, width);
    let m = raws.map_values(f);
    assert(raws.push(r).map_values(f) =~= m.push(be_bytes(r, width)));
    m.lemma_flatten_push(be_bytes(r, width));
    assert(m.push(be_bytes(r, width)).flatten() =~= m.flatten() + be_bytes(r, width));
}

/// Bulk content of no elements is empty.
pub proof fn lemma_bulk_content_empty(width: nat)
    ensures
        bulk_content(Seq::empty(), width) == Seq::<u8>::empty(),
{
    let f = |x: nat| be_bytes(x, width);
    assert(Seq::<nat>::empty().map_values(f) =~= Seq::<Seq<u8>>::empty());
    assert(Seq::<Seq<u8>>::empty().flatten() =~= Seq::<u8>::empty());
}

/// Bulk content distributes over concatenation of element runs.
pub proof fn lemma_bulk_content_concat(a: Seq<nat>, b: Seq<nat>, width: nat)
    ensures
        bulk_content(a + b, width) == bulk_content(a, width) + bulk_content(b, width),
{
    let f = |x: nat| be_bytes(x, width);
    assert((a + b).map_values(f) =~= a.map_values(f) + b.map_values(f));
    vstd::seq_lib::lemma_flatten_concat(a.map_values(f), b.map_values(f));
    assert((a.map_values(f) + b.map_values(f)).flatten() =~= a.map_values(f).flatten()
        + b.map_values(f).flatten());
}

/// The outcome of one bulk fill call over the bytes after the array
/// framing: scan up to `max` elements' worth of escaped content, stop
/// early at an unescaped array delimiter, unescape the span, and read
/// it as fixed-width runs.  The consumed length includes the end
/// delimiter when the scan reached it.
pub open spec fn fill_outcome(s: Seq<u8>, width: nat, max: nat) -> Parsed<(Seq<nat>, bool)> {
    match scan_bulk(s, max * width) {
        Option::None => Parsed::Short,
        Option::Some(i) => {
            let content = unescape(s.take(i as int));
            if content.len() % width != 0 {
                Parsed::Fail(ErrorKind::InvalidLength)
            } else if s.skip(i as int).len() == 0 {
                Parsed::Short
            } else {
                let done = s.skip(i as int)[0] == ARRAY_DELIMIT;
                Parsed::Found(
                    (be_chunks(content, width), done),
                    if done {
                        i + 1
                    } else {
                        i
                    },
                )
            }
        },
    }
}

/// Parse one scalar of kind `k` at the front of `s`: the tag byte and
/// the fixed-width payload, read as an unsigned number.  The length is
/// checked before the tag, so a run too short for the payload fails
/// with `InvalidLength` whatever its first byte holds.
pub open spec fn parse_scalar(s: Seq<u8>, k: Type) -> Parsed<nat>
    recommends
        k != Type::Nil,
{
    let w = k.width();
    if s.len() < 1 + w {
        Parsed::Fail(ErrorKind::InvalidLength)
    } else if s[0] != k.tag() {
        Parsed::Fail(
            if Type::from_tag(s[0]) is Some {
                ErrorKind::UnexpectedDelimiter
            } else {
                ErrorKind::UnknownTypeTag
            },
        )
    } else {
        let r = be_value(s.subrange(1, 1 + w as int));
        if k == Type::Bool && r > 1 {
            Parsed::Fail(ErrorKind::InvalidValue)
        } else {
            Parsed::Found(r, 1 + w)
        }
    }
}

/// Parse one bulk array body: everything after the begin delimiter and
/// the element tag, up to and including the end delimiter.
pub open spec fn parse_bulk_body(s: Seq<u8>, k: Type) -> Parsed<SpecValue> {
    match scan_to_end(s, ARRAY_DELIMIT) {
        Option::None => Parsed::Short,
        Option::Some(i) => {
            let content = unescape(s.take(i as int));
            let w = k.width();
            if content.len() % w != 0 {
                Parsed::Fail(ErrorKind::InvalidLength)
            } else {
                let raws = be_chunks(content, w);
                if !raws_ok(k, raws) {
                    Parsed::Fail(ErrorKind::InvalidValue)
                } else {
                    Parsed::Found(array_of(k, raws), i + 1)
                }
            }
        },
    }
}

/// Parse the value at the front of `s`, where `s` is everything left of
/// the input.
pub open spec fn parse_value(s: Seq<u8>) -> Parsed<SpecValue>
    decreases s.len(), 0nat,
{
    if s.len() == 0 {
        Parsed::Short
    } else if s[0] == ARRAY_DELIMIT {
        if s.len() == 1 {
            Parsed::Short
        } else {
            match Type::from_tag(s[1]) {
                Option::None => Parsed::Fail(ErrorKind::UnknownTypeTag),
                Option::Some(k) => if k == Type::Nil {
                    Parsed::Fail(ErrorKind::InvalidValue)
                } else {
                    match parse_bulk_body(s.skip(2), k) {
                        Parsed::Found(v, n) => Parsed::Found(v, n + 2),
                        Parsed::Short => Parsed::Short,
                        Parsed::Fail(e) => Parsed::Fail(e),
                    }
                },
            }
        }
    } else if s[0] == LIST_BEGIN {
        match parse_list_tail(s.skip(1)) {
            Parsed::Found(items, n) => Parsed::Found(SpecValue::List(items), n + 1),
            Parsed::Short => Parsed::Short,
            Parsed::Fail(e) => Parsed::Fail(e),
        }
    } else if s[0] == MAP_BEGIN {
        match parse_map_tail(s.skip(1)) {
            Parsed::Found(entries, n) => Parsed::Found(SpecValue::Dict(entries), n + 1),
            Parsed::Short => Parsed::Short,
            Parsed::Fail(e) => Parsed::Fail(e),
        }
    } else if s[0] == STRING_DELIMIT {
        match scan_to_end(s.skip(1), STRING_DELIMIT) {
            Option::None => Parsed::Short,
            Option::Some(i) => {
                let content = unescape(s.skip(1).take(i as int));
                if !valid_text(content) {
                    Parsed::Fail(ErrorKind::InvalidUtf8)
                } else {
                    Parsed::Found(SpecValue::Text(content), 1 + i + 1)
                }
            },
        }
    } else {
        match Type::from_tag(s[0]) {
            Option::None => Parsed::Fail(ErrorKind::UnknownTypeTag),
            Option::Some(k) => if k == Type::Nil {
                Parsed::Found(SpecValue::Nil, 1)
            } else {
                match parse_scalar(s, k) {
                    Parsed::Found(r, n) => Parsed::Found(scalar_of(k, r), n),
                    Parsed::Short => Parsed::Short,
                    Parsed::Fail(e) => Parsed::Fail(e),
                }
            },
        }
    }
}

/// A successful scan stops at an index inside the bytes.
pub proof fn lemma_scan_bound(s: Seq<u8>, end: u8)
    ensures
        match scan_to_end(s, end) {
            Option::Some(i) => i < s.len() && s[i as int] == end,
            Option::None => true,
        },
    decreases s.len(),
{
    if s.len() == 0 {
    } else if s[0] == end {
    } else if s[0] == ESCAPE {
        if s.len() > 1 {
            lemma_scan_bound(s.skip(2), end);
        }
    } else {
        lemma_scan_bound(s.skip(1), end);
    }
}

/// A parsed value occupies at least one byte and at most the whole
/// input.
pub proof fn lemma_parse_value_bounds(s: Seq<u8>)
    ensures
        match parse_value(s) {
            Parsed::Found(v, n) => 1 <= n <= s.len(),
            _ => true,
        },
    decreases s.len(), 0nat,
{
    if s.len() == 0 {
    } else if s[0] == ARRAY_DELIMIT {
        if s.len() > 1 {
            lemma_scan_bound(s.skip(2), ARRAY_DELIMIT);
        }
    } else if s[0] == LIST_BEGIN {
        lemma_parse_list_tail_bounds(s.skip(1));
    } else if s[0] == MAP_BEGIN {
        lemma_parse_map_tail_bounds(s.skip(1));
    } else if s[0] == STRING_DELIMIT {
        lemma_scan_bound(s.skip(1), STRING_DELIMIT);
    } else {
    }
}

/// A parsed list tail occupies at least its end delimiter and at most
/// the whole input.
pub proof fn lemma_parse_list_tail_bounds(s: Seq<u8>)
    ensures
        match parse_list_tail(s) {
            Parsed::Found(items, n) => 1 <= n <= s.len(),
            _ => true,
        },
    decreases s.len(), 1nat,
{
    if s.len() == 0 {
    } else if s[0] == LIST_END {
    } else {
        lemma_parse_value_bounds(s);
        match parse_value(s) {
            Parsed::Found(v, n) => {
                if 1 <= n <= s.len() {
                    lemma_parse_list_tail_bounds(s.skip(n as int));
                }
            },
            _ => {},
        }
    }
}

/// A parsed map tail occupies at least its end delimiter and at most
/// the whole input.
pub proof fn lemma_parse_map_tail_bounds(s: Seq<u8>)
    ensures
        match parse_map_tail(s) {
            Parsed::Found(entries, n) => 1 <= n <= s.len(),
            _ => true,
        },
    decreases s.len(), 1nat,
{
    if s.len() == 0 {
    } else if s[0] == MAP_END {
    } else {
        lemma_parse_value_bounds(s);
        match parse_value(s) {
            Parsed::Found(k, n) => {
                if 1 <= n <= s.len() {
                    lemma_parse_value_bounds(s.skip(n as int));
                    match parse_value(s.skip(n as int)) {
                        Parsed::Found(v, m) => {
                            if 1 <= m <= s.len() - n {
                                lemma_parse_map_tail_bounds(s.skip((n + m) as int));
                            }
                        },
                        _ => {},
                    }
                }
            },
            _ => {},
        }
    }
}

/// The extent of one value when it is skipped rather than decoded: the
/// skip paths scan strings and bulk-array content to their unescaped
/// end delimiter without validating UTF-8 or element boundaries, and
/// walk lists and maps structurally.
pub open spec fn skip_value(s: Seq<u8>) -> Parsed<()>
    decreases s.len(), 0nat,
{
    if s.len() == 0 {
        Parsed::Short
    } else if s[0] == ARRAY_DELIMIT {
        if s.len() == 1 {
            Parsed::Short
        } else {
            match Type::from_tag(s[1]) {
                Option::None => Parsed::Fail(ErrorKind::UnknownTypeTag),
                Option::Some(k) => if k == Type::Nil {
                    Parsed::Fail(ErrorKind::InvalidValue)
                } else {
                    match scan_to_end(s.skip(2), ARRAY_DELIMIT) {
                        Option::None => Parsed::Short,
                        Option::Some(i) => Parsed::Found((), i + 3),
                    }
                },
            }
        }
    } else if s[0] == LIST_BEGIN {
        match skip_list_tail(s.skip(1)) {
            Parsed::Found(u, n) => Parsed::Found((), n + 1),
            Parsed::Short => Parsed::Short,
            Parsed::Fail(e) => Parsed::Fail(e),
        }
    } else if s[0] == MAP_BEGIN {
        match skip_map_tail(s.skip(1)) {
            Parsed::Found(u, n) => Parsed::Found((), n + 1),
            Parsed::Short => Parsed::Short,
            Parsed::Fail(e) => Parsed::Fail(e),
        }
    } else if s[0] == STRING_DELIMIT {
        match scan_to_end(s.skip(1), STRING_DELIMIT) {
            Option::None => Parsed::Short,
            Option::Some(i) => Parsed::Found((), 1 + i + 1),
        }
    } else {
        match Type::from_tag(s[0]) {
            Option::None => Parsed::Fail(ErrorKind::UnknownTypeTag),
            Option::Some(k) => if k == Type::Nil {
                Parsed::Found((), 1)
            } else {
                match parse_scalar(s, k) {
                    Parsed::Found(r, n) => Parsed::Found((), n),
                    Parsed::Short => Parsed::Short,
                    Parsed::Fail(e) => Parsed::Fail(e),
                }
            },
        }
    }
}

/// Skip list elements up to and including the end delimiter.
pub open spec fn skip_list_tail(s: Seq<u8>) -> Parsed<()>
    decreases s.len(), 1nat,
{
    if s.len() == 0 {
        Parsed::Short
    } else if s[0] == LIST_END {
        Parsed::Found((), 1)
    } else {
        match skip_value(s) {
            Parsed::Found(u, n) => if 1 <= n <= s.len() {
                match skip_list_tail(s.skip(n as int)) {
                    Parsed::Found(u2, m) => Parsed::Found((), n + m),
                    Parsed::Short => Parsed::Short,
                    Parsed::Fail(e) => Parsed::Fail(e),
                }
            } else {
                Parsed::Fail(ErrorKind::InvalidValue)
            },
            Parsed::Short => Parsed::Short,
            Parsed::Fail(e) => Parsed::Fail(e),
        }
    }
}

/// Skip map entries up to and including the end delimiter.
pub open spec fn skip_map_tail(s: Seq<u8>) -> Parsed<()>
    decreases s.len(), 1nat,
{
    if s.len() == 0 {
        Parsed::Short
    } else if s[0] == MAP_END {
        Parsed::Found((), 1)
    } else {
        match skip_value(s) {
            Parsed::Found(u, n) => if 1 <= n <= s.len() {
                match skip_value(s.skip(n as int)) {
                    Parsed::Found(u2, m) => if 1 <= m <= s.len() - n {
                        match skip_map_tail(s.skip((n + m) as int)) {
                            Parsed::Found(u3, l) => Parsed::Found((), n + m + l),
                            Parsed::Short => Parsed::Short,
                            Parsed::Fail(e) => Parsed::Fail(e),
                        }
                    } else {
                        Parsed::Fail(ErrorKind::InvalidValue)
                    },
                    Parsed::Short => Parsed::Short,
                    Parsed::Fail(e) => Parsed::Fail(e),
                }
            } else {
                Parsed::Fail(ErrorKind::InvalidValue)
            },
            Parsed::Short => Parsed::Short,
            Parsed::Fail(e) => Parsed::Fail(e),
        }
    }
}

/// A skipped value occupies at least one byte and at most the whole
/// input.
pub proof fn lemma_skip_value_bounds(s: Seq<u8>)
    ensures
        match skip_value(s) {
            Parsed::Found(u, n) => 1 <= n <= s.len(),
            _ => true,
        },
    decreases s.len(), 0nat,
{
    if s.len() == 0 {
    } else if s[0] == ARRAY_DELIMIT {
        if s.len() > 1 {
            lemma_scan_bound(s.skip(2), ARRAY_DELIMIT);
        }
    } else if s[0] == LIST_BEGIN {
        lemma_skip_list_tail_bounds(s.skip(1));
    } else if s[0] == MAP_BEGIN {
        lemma_skip_map_tail_bounds(s.skip(1));
    } else if s[0] == STRING_DELIMIT {
        lemma_scan_bound(s.skip(1), STRING_DELIMIT);
    } else {
    }
}

/// A skipped list tail occupies at least its end delimiter and at most
/// the whole input.
pub proof fn lemma_skip_list_tail_bounds(s: Seq<u8>)
    ensures
        match skip_list_tail(s) {
            Parsed::Found(u, n) => 1 <= n <= s.len(),
            _ => true,
        },
    decreases s.len(), 1nat,
{
    if s.len() == 0 {
    } else if s[0] == LIST_END {
    } else {
        lemma_skip_value_bounds(s);
        match skip_value(s) {
            Parsed::Found(u, n) => {
                if 1 <= n <= s.len() {
                    lemma_skip_list_tail_bounds(s.skip(n as int));
                }
            },
            _ => {},
        }
    }
}

/// A skipped map tail occupies at least its end delimiter and at most
/// the whole input.
pub proof fn lemma_skip_map_tail_bounds(s: Seq<u8>)
    ensures
        match skip_map_tail(s) {
            Parsed::Found(u, n) => 1 <= n <= s.len(),
            _ => true,
        },
    decreases s.len(), 1nat,
{
    if s.len() == 0 {
    } else if s[0] == MAP_END {
    } else {
        lemma_skip_value_bounds(s);
        match skip_value(s) {
            Parsed::Found(u, n) => {
                if 1 <= n <= s.len() {
                    lemma_skip_value_bounds(s.skip(n as int));
                    match skip_value(s.skip(n as int)) {
                        Parsed::Found(u2, m) => {
                            if 1 <= m <= s.len() - n {
                                lemma_skip_map_tail_bounds(s.skip((n + m) as int));
                            }
                        },
                        _ => {},
                    }
                }
            },
            _ => {},
        }
    }
}

/// Parse list elements up to and including the end delimiter.
pub open spec fn parse_list_tail(s: Seq<u8>) -> Parsed<Seq<SpecValue>>
    decreases s.len(), 1nat,
{
    if s.len() == 0 {
        Parsed::Short
    } else if s[0] == LIST_END {
        Parsed::Found(Seq::empty(), 1)
    } else {
        match parse_value(s) {
            Parsed::Found(v, n) => if 1 <= n <= s.len() {
                match parse_list_tail(s.skip(n as int)) {
                    Parsed::Found(items, m) => Parsed::Found(seq![v] + items, n + m),
                    Parsed::Short => Parsed::Short,
                    Parsed::Fail(e) => Parsed::Fail(e),
                }
            } else {
                Parsed::Fail(ErrorKind::InvalidValue)
            },
            Parsed::Short => Parsed::Short,
            Parsed::Fail(e) => Parsed::Fail(e),
        }
    }
}

/// Parse map entries up to and including the end delimiter.  Entries
/// are key and value in immediate succession, with nothing between or
/// after them but the next key or the end delimiter.
pub open spec fn parse_map_tail(s: Seq<u8>) -> Parsed<Seq<(SpecValue, SpecValue)>>
    decreases s.len(), 1nat,
{
    if s.len() == 0 {
        Parsed::Short
    } else if s[0] == MAP_END {
        Parsed::Found(Seq::empty(), 1)
    } else {
        match parse_value(s) {
            Parsed::Found(k, n) => if 1 <= n <= s.len() {
                match parse_value(s.skip(n as int)) {
                    Parsed::Found(v, m) => if 1 <= m <= s.len() - n {
                        match parse_map_tail(s.skip((n + m) as int)) {
                            Parsed::Found(entries, l) => Parsed::Found(
                                seq![(k, v)] + entries,
                                n + m + l,
                            ),
                            Parsed::Short => Parsed::Short,
                            Parsed::Fail(e) => Parsed::Fail(e),
                        }
                    } else {
                        Parsed::Fail(ErrorKind::InvalidValue)
                    },
                    Parsed::Short => Parsed::Short,
                    Parsed::Fail(e) => Parsed::Fail(e),
                }
            } else {
                Parsed::Fail(ErrorKind::InvalidValue)
            },
            Parsed::Short => Parsed::Short,
            Parsed::Fail(e) => Parsed::Fail(e),
        }
    }
}

} // verus!
