//! Encode values into a stream of byte chunks.
//!
//! An encoded stream is a sequence of byte chunks; its meaning is the
//! concatenation of the chunks (`chunks_flat`), and every contract here
//! says exactly which bytes that concatenation holds, in terms of
//! `wire_of`.  Composition never copies chunk contents: nesting a
//! stream into a larger one appends chunk handles, so a deeply nested
//! structure is chained, not re-materialized.

use vstd::prelude::*;

verus! {

use crate::constants::{Type, ARRAY_DELIMIT, ESCAPE, FALSE, LIST_BEGIN, LIST_END, MAP_BEGIN,
    MAP_END, STRING_DELIMIT, TRUE};
use crate::element::{be_bytes, be_encode, lemma_pow256_values, pow256, IntoBytes};
use crate::value::{view_entries, view_items, SpecValue, Value};
use crate::wire::{array_ctl, bulk_content, chunks_flat, escape_with, flat_elems,
    lemma_bulk_content_concat, lemma_bulk_content_empty, lemma_bulk_content_push,
    lemma_chunks_flat_concat, lemma_chunks_flat_empty, lemma_chunks_flat_push,
    lemma_escape_append, lemma_escape_push, lemma_flat_elems_empty,
    lemma_flat_elems_push, lemma_wire_entries_push, lemma_wire_list_push, needs_escape, raws_of,
    scalar_raw, string_ctl, wire_entries, wire_list, wire_of, ErrorKind};

/// A lazily composed encoded byte stream: a sequence of chunks whose
/// meaning is their concatenation.
pub type ByteStream = Vec<Vec<u8>>;

/// An encoding error.
#[derive(Debug)]
pub struct Error {
    kind: ErrorKind,
    message: String,
}

impl Error {
    /// Which kind of error this is.
    pub closed spec fn spec_kind(self) -> ErrorKind {
        self.kind
    }

    /// Which kind of error this is.
    pub fn kind(&self) -> (k: ErrorKind)
        ensures
            k == self.spec_kind(),
    {
        self.kind
    }

    /// A human-readable description of the error.
    pub fn message(&self) -> &str {
        self.message.as_str()
    }

    /// An error adopted from a collaborator.
    pub fn custom(message: String) -> (e: Error)
        ensures
            e.spec_kind() == ErrorKind::Custom,
    {
        Error { kind: ErrorKind::Custom, message }
    }

    fn misuse(message: &str) -> (e: Error)
        ensures
            e.spec_kind() == ErrorKind::Misuse,
    {
        Error { kind: ErrorKind::Misuse, message: message.to_owned() }
    }
}

/// Does a byte occur in a control slice?
fn slice_contains(ctl: &[u8], b: u8) -> (r: bool)
    ensures
        r == ctl@.contains(b),
{
    let mut i: usize = 0;
    while i < ctl.len()
        invariant
            i <= ctl@.len(),
            forall|j: int| 0 <= j < i ==> ctl@[j] != b,
        decreases ctl@.len() - i,
    {
        if ctl[i] == b {
            return true;
        }
        i = i + 1;
    }
    false
}

/// A stream of one chunk.
fn singleton_stream(chunk: Vec<u8>) -> (s: ByteStream)
    ensures
        chunks_flat(s@) == chunk@,
{
    let ghost c = chunk@;
    let mut s: ByteStream = Vec::new();
    proof {
        lemma_chunks_flat_empty();
    }
    s.push(chunk);
    proof {
        lemma_chunks_flat_push(Seq::empty(), s@[0]);
        assert(Seq::<Vec<u8>>::empty().push(s@[0]) =~= s@);
        assert(Seq::<u8>::empty() + c =~= c);
    }
    s
}

/// A TBON encoder.  It carries no state: every call yields an
/// independent stream.
pub struct Encoder;

impl Encoder {
    /// Insert one escape byte before every occurrence of a control byte
    /// or of the escape byte itself.
    pub fn escape(&self, value: &[u8], control: &[u8]) -> (r: Vec<u8>)
        ensures
            r@ == escape_with(value@, control@),
    {
        let mut escaped: Vec<u8> = Vec::new();
        let mut i: usize = 0;
        while i < value.len()
            invariant
                i <= value@.len(),
                escaped@ == escape_with(value@.take(i as int), control@),
            decreases value@.len() - i,
        {
            let b = value[i];
            proof {
                lemma_escape_push(value@.take(i as int), b, control@);
                assert(value@.take(i as int).push(b) =~= value@.take(i + 1));
            }
            if slice_contains(control, b) || b == ESCAPE {
                escaped.push(ESCAPE);
            }
            escaped.push(b);
            i = i + 1;
        }
        proof {
            assert(value@.take(value@.len() as int) =~= value@);
        }
        escaped
    }

    /// One chunk holding a scalar: the kind's tag byte, then the
    /// fixed-width big-endian payload.
    fn scalar_chunk(&self, k: Type, raw: u64) -> (r: Vec<u8>)
        requires
            k != Type::Nil,
            (raw as nat) < pow256(k.width()),
        ensures
            r@ == seq![k.tag()] + be_bytes(raw as nat, k.width()),
    {
        let mut chunk: Vec<u8> = Vec::new();
        chunk.push(k.to_tag());
        let mut payload = be_encode(raw, k.byte_width());
        chunk.append(&mut payload);
        proof {
            assert(chunk@ =~= seq![k.tag()] + be_bytes(raw as nat, k.width()));
        }
        chunk
    }

    /// Encode a boolean: its tag, then one payload byte, 1 or 0.
    pub fn encode_bool(self, v: bool) -> (r: Result<ByteStream, Error>)
        ensures
            r matches Ok(s) && chunks_flat(s@) == wire_of(SpecValue::Bool(v)),
    {
        proof {
            lemma_pow256_values();
        }
        let chunk = self.scalar_chunk(Type::Bool, if v { TRUE as u64 } else { FALSE as u64 });
        Ok(singleton_stream(chunk))
    }

    /// Encode an 8-bit signed integer.
    pub fn encode_i8(self, v: i8) -> (r: Result<ByteStream, Error>)
        ensures
            r matches Ok(s) && chunks_flat(s@) == wire_of(SpecValue::I8(v)),
    {
        proof {
            lemma_pow256_values();
        }
        let chunk = self.scalar_chunk(Type::I8, (v as u8) as u64);
        Ok(singleton_stream(chunk))
    }

    /// Encode a 16-bit signed integer.
    pub fn encode_i16(self, v: i16) -> (r: Result<ByteStream, Error>)
        ensures
            r matches Ok(s) && chunks_flat(s@) == wire_of(SpecValue::I16(v)),
    {
        proof {
            lemma_pow256_values();
        }
        let chunk = self.scalar_chunk(Type::I16, (v as u16) as u64);
        Ok(singleton_stream(chunk))
    }

    /// Encode a 32-bit signed integer.
    pub fn encode_i32(self, v: i32) -> (r: Result<ByteStream, Error>)
        ensures
            r matches Ok(s) && chunks_flat(s@) == wire_of(SpecValue::I32(v)),
    {
        proof {
            lemma_pow256_values();
        }
        let chunk = self.scalar_chunk(Type::I32, (v as u32) as u64);
        Ok(singleton_stream(chunk))
    }

    /// Encode a 64-bit signed integer.
    pub fn encode_i64(self, v: i64) -> (r: Result<ByteStream, Error>)
        ensures
            r matches Ok(s) && chunks_flat(s@) == wire_of(SpecValue::I64(v)),
    {
        proof {
            lemma_pow256_values();
        }
        let chunk = self.scalar_chunk(Type::I64, v as u64);
        Ok(singleton_stream(chunk))
    }

    /// Encode an 8-bit unsigned integer.
    pub fn encode_u8(self, v: u8) -> (r: Result<ByteStream, Error>)
        ensures
            r matches Ok(s) && chunks_flat(s@) == wire_of(SpecValue::U8(v)),
    {
        proof {
            lemma_pow256_values();
        }
        let chunk = self.scalar_chunk(Type::U8, v as u64);
        Ok(singleton_stream(chunk))
    }

    /// Encode a 16-bit unsigned integer.
    pub fn encode_u16(self, v: u16) -> (r: Result<ByteStream, Error>)
        ensures
            r matches Ok(s) && chunks_flat(s@) == wire_of(SpecValue::U16(v)),
    {
        proof {
            lemma_pow256_values();
        }
        let chunk = self.scalar_chunk(Type::U16, v as u64);
        Ok(singleton_stream(chunk))
    }

    /// Encode a 32-bit unsigned integer.
    pub fn encode_u32(self, v: u32) -> (r: Result<ByteStream, Error>)
        ensures
            r matches Ok(s) && chunks_flat(s@) == wire_of(SpecValue::U32(v)),
    {
        proof {
            lemma_pow256_values();
        }
        let chunk = self.scalar_chunk(Type::U32, v as u64);
        Ok(singleton_stream(chunk))
    }

    /// Encode a 64-bit unsigned integer.
    pub fn encode_u64(self, v: u64) -> (r: Result<ByteStream, Error>)
        ensures
            r matches Ok(s) && chunks_flat(s@) == wire_of(SpecValue::U64(v)),
    {
        proof {
            lemma_pow256_values();
        }
        let chunk = self.scalar_chunk(Type::U64, v);
        Ok(singleton_stream(chunk))
    }

    /// Encode a 32-bit float given as its IEEE 754 bit pattern.
    pub fn encode_f32_bits(self, bits: u32) -> (r: Result<ByteStream, Error>)
        ensures
            r matches Ok(s) && chunks_flat(s@) == wire_of(SpecValue::F32Bits(bits)),
    {
        proof {
            lemma_pow256_values();
        }
        let chunk = self.scalar_chunk(Type::F32, bits as u64);
        Ok(singleton_stream(chunk))
    }

    /// Encode a 64-bit float given as its IEEE 754 bit pattern.
    pub fn encode_f64_bits(self, bits: u64) -> (r: Result<ByteStream, Error>)
        ensures
            r matches Ok(s) && chunks_flat(s@) == wire_of(SpecValue::F64Bits(bits)),
    {
        proof {
            lemma_pow256_values();
        }
        let chunk = self.scalar_chunk(Type::F64, bits);
        Ok(singleton_stream(chunk))
    }

    /// Encode the none sentinel: its tag byte alone.
    pub fn encode_none(self) -> (r: Result<ByteStream, Error>)
        ensures
            r matches Ok(s) && chunks_flat(s@) == wire_of(SpecValue::Nil),
    {
        let chunk = vec![Type::Nil.to_tag()];
        proof {
            assert(chunk@ =~= wire_of(SpecValue::Nil));
        }
        Ok(singleton_stream(chunk))
    }

    /// Encode the unit value, which the wire does not distinguish from
    /// the none sentinel.
    pub fn encode_unit(self) -> (r: Result<ByteStream, Error>)
        ensures
            r matches Ok(s) && chunks_flat(s@) == wire_of(SpecValue::Nil),
    {
        self.encode_none()
    }

    /// Frame already-converted bulk-array content chunks: the array
    /// delimiter and element tag, each content chunk escaped, and the
    /// array delimiter again.
    fn array_frame(&self, k: Type, content: &Vec<Vec<u8>>) -> (out: ByteStream)
        requires
            k != Type::Nil,
        ensures
            chunks_flat(out@) == seq![ARRAY_DELIMIT, k.tag()] + escape_with(
                chunks_flat(content@),
                array_ctl(),
            ) + seq![ARRAY_DELIMIT],
    {
        let mut out: ByteStream = Vec::new();
        let mut head: Vec<u8> = Vec::new();
        head.push(ARRAY_DELIMIT);
        head.push(k.to_tag());
        proof {
            lemma_chunks_flat_empty();
            assert(head@ =~= seq![ARRAY_DELIMIT, k.tag()]);
        }
        let ghost head_view = head@;
        out.push(head);
        proof {
            lemma_chunks_flat_push(Seq::empty(), out@[0]);
            assert(Seq::<Vec<u8>>::empty().push(out@[0]) =~= out@);
            assert(chunks_flat(out@) =~= head_view);
        }
        let control = vec![ARRAY_DELIMIT];
        proof {
            assert(control@ =~= array_ctl());
            assert(content@.take(0) =~= Seq::<Vec<u8>>::empty());
            assert(escape_with(Seq::<u8>::empty(), array_ctl()) == Seq::<u8>::empty());
            assert(chunks_flat(out@) =~= seq![ARRAY_DELIMIT, k.tag()] + escape_with(
                chunks_flat(content@.take(0)),
                array_ctl(),
            ));
        }
        let mut i: usize = 0;
        while i < content.len()
            invariant
                i <= content@.len(),
                control@ == array_ctl(),
                chunks_flat(out@) == seq![ARRAY_DELIMIT, k.tag()] + escape_with(
                    chunks_flat(content@.take(i as int)),
                    array_ctl(),
                ),
            decreases content@.len() - i,
        {
            let escaped = self.escape(content[i].as_slice(), control.as_slice());
            let ghost old_out = out@;
            let ghost esc_view = escaped@;
            out.push(escaped);
            proof {
                lemma_chunks_flat_push(old_out, out@.last());
                assert(old_out.push(out@.last()) =~= out@);
                assert(content@.take(i as int).push(content@[i as int]) =~= content@.take(i + 1));
                lemma_chunks_flat_push(content@.take(i as int), content@[i as int]);
                lemma_escape_append(
                    chunks_flat(content@.take(i as int)),
                    content@[i as int]@,
                    array_ctl(),
                );
                assert(chunks_flat(out@) =~= seq![ARRAY_DELIMIT, k.tag()] + escape_with(
                    chunks_flat(content@.take(i + 1)),
                    array_ctl(),
                ));
            }
            i = i + 1;
        }
        let ghost old_out = out@;
        out.push(vec![ARRAY_DELIMIT]);
        proof {
            lemma_chunks_flat_push(old_out, out@.last());
            assert(old_out.push(out@.last()) =~= out@);
            assert(out@.last()@ =~= seq![ARRAY_DELIMIT]);
            assert(content@.take(content@.len() as int) =~= content@);
            assert(chunks_flat(out@) =~= seq![ARRAY_DELIMIT, k.tag()] + escape_with(
                chunks_flat(content@),
                array_ctl(),
            ) + seq![ARRAY_DELIMIT]);
        }
        out
    }

    /// Convert one chunk of elements into its raw content bytes: each
    /// element's fixed-width big-endian run, concatenated.
    fn chunk_bytes<const W: usize, T: IntoBytes<W> + Copy>(&self, chunk: &Vec<T>) -> (r: Vec<u8>)
        ensures
            r@ == bulk_content(chunk@.map_values(|x: T| x.raw()), W as nat),
    {
        let mut out: Vec<u8> = Vec::new();
        proof {
            lemma_bulk_content_empty(W as nat);
            assert(chunk@.take(0).map_values(|x: T| x.raw()) =~= Seq::<nat>::empty());
        }
        let mut i: usize = 0;
        while i < chunk.len()
            invariant
                i <= chunk@.len(),
                out@ == bulk_content(chunk@.take(i as int).map_values(|x: T| x.raw()), W as nat),
            decreases chunk@.len() - i,
        {
            let x = chunk[i];
            let mut bytes = x.into_bytes();
            let ghost old_out = out@;
            out.append(&mut bytes);
            proof {
                let f = |y: T| y.raw();
                lemma_bulk_content_push(chunk@.take(i as int).map_values(f), x.raw(), W as nat);
                assert(chunk@.take(i as int).map_values(f).push(x.raw()) =~= chunk@.take(
                    i + 1,
                ).map_values(f));
            }
            i = i + 1;
        }
        proof {
            assert(chunk@.take(chunk@.len() as int) =~= chunk@);
        }
        out
    }

    /// Encode chunks of bulk-array elements of kind `k`: one output
    /// chunk of escaped content per input chunk, inside the array
    /// framing.
    fn encode_array_raw<const W: usize, T: IntoBytes<W> + Copy>(
        &self,
        k: Type,
        chunks: &Vec<Vec<T>>,
    ) -> (out: ByteStream)
        requires
            k != Type::Nil,
            k.width() == W as nat,
        ensures
            chunks_flat(out@) == seq![ARRAY_DELIMIT, k.tag()] + escape_with(
                bulk_content(flat_elems(chunks@).map_values(|x: T| x.raw()), W as nat),
                array_ctl(),
            ) + seq![ARRAY_DELIMIT],
    {
        let mut content: Vec<Vec<u8>> = Vec::new();
        proof {
            lemma_chunks_flat_empty();
            lemma_flat_elems_empty::<T>();
            lemma_bulk_content_empty(W as nat);
            assert(chunks@.take(0) =~= Seq::<Vec<T>>::empty());
            assert(flat_elems(chunks@.take(0)).map_values(|x: T| x.raw()) =~= Seq::<nat>::empty());
        }
        let mut i: usize = 0;
        while i < chunks.len()
            invariant
                i <= chunks@.len(),
                chunks_flat(content@) == bulk_content(
                    flat_elems(chunks@.take(i as int)).map_values(|x: T| x.raw()),
                    W as nat,
                ),
            decreases chunks@.len() - i,
        {
            let cb = self.chunk_bytes::<W, T>(&chunks[i]);
            let ghost old_content = content@;
            content.push(cb);
            proof {
                let f = |x: T| x.raw();
                lemma_chunks_flat_push(old_content, content@.last());
                assert(old_content.push(content@.last()) =~= content@);
                assert(chunks@.take(i as int).push(chunks@[i as int]) =~= chunks@.take(i + 1));
                lemma_flat_elems_push(chunks@.take(i as int), chunks@[i as int]);
                let a = flat_elems(chunks@.take(i as int));
                let b = chunks@[i as int]@;
                assert((a + b).map_values(f) =~= a.map_values(f) + b.map_values(f));
                lemma_bulk_content_concat(a.map_values(f), b.map_values(f), W as nat);
            }
            i = i + 1;
        }
        proof {
            assert(chunks@.take(chunks@.len() as int) =~= chunks@);
        }
        self.array_frame(k, &content)
    }

    /// Encode text given as UTF-8 bytes: the string delimiter, the
    /// content with every delimiter and escape byte escaped, and the
    /// string delimiter again.
    pub fn encode_text(self, v: &[u8]) -> (r: Result<ByteStream, Error>)
        ensures
            r matches Ok(s) && chunks_flat(s@) == wire_of(SpecValue::Text(v@)),
    {
        let control = vec![STRING_DELIMIT];
        let mut chunk = vec![STRING_DELIMIT];
        let mut escaped = self.escape(v, control.as_slice());
        proof {
            assert(control@ =~= string_ctl());
        }
        chunk.append(&mut escaped);
        chunk.push(STRING_DELIMIT);
        proof {
            assert(chunk@ =~= seq![STRING_DELIMIT] + escape_with(v@, string_ctl())
                + seq![STRING_DELIMIT]);
        }
        Ok(singleton_stream(chunk))
    }

    /// Encode chunks of a boolean bulk array.
    pub fn encode_array_bool(self, chunks: &Vec<Vec<bool>>) -> (r: Result<ByteStream, Error>)
        ensures
            r matches Ok(s) && chunks_flat(s@) == wire_of(
                SpecValue::ArrayBool(flat_elems(chunks@)),
            ),
    {
        let out = self.encode_array_raw::<1, bool>(Type::Bool, chunks);
        proof {
            let es = flat_elems(chunks@);
            assert(es.map_values(|x: bool| x.raw()) =~= raws_of(SpecValue::ArrayBool(es)));
        }
        Ok(out)
    }

    /// Encode chunks of an 8-bit unsigned bulk array.
    pub fn encode_array_u8(self, chunks: &Vec<Vec<u8>>) -> (r: Result<ByteStream, Error>)
        ensures
            r matches Ok(s) && chunks_flat(s@) == wire_of(SpecValue::ArrayU8(flat_elems(chunks@))),
    {
        let out = self.encode_array_raw::<1, u8>(Type::U8, chunks);
        proof {
            let es = flat_elems(chunks@);
            assert(es.map_values(|x: u8| x.raw()) =~= raws_of(SpecValue::ArrayU8(es)));
        }
        Ok(out)
    }

    /// Encode chunks of a 16-bit unsigned bulk array.
    pub fn encode_array_u16(self, chunks: &Vec<Vec<u16>>) -> (r: Result<ByteStream, Error>)
        ensures
            r matches Ok(s) && chunks_flat(s@) == wire_of(SpecValue::ArrayU16(flat_elems(chunks@))),
    {
        let out = self.encode_array_raw::<2, u16>(Type::U16, chunks);
        proof {
            let es = flat_elems(chunks@);
            assert(es.map_values(|x: u16| x.raw()) =~= raws_of(SpecValue::ArrayU16(es)));
        }
        Ok(out)
    }

    /// Encode chunks of a 32-bit unsigned bulk array.
    pub fn encode_array_u32(self, chunks: &Vec<Vec<u32>>) -> (r: Result<ByteStream, Error>)
        ensures
            r matches Ok(s) && chunks_flat(s@) == wire_of(SpecValue::ArrayU32(flat_elems(chunks@))),
    {
        let out = self.encode_array_raw::<4, u32>(Type::U32, chunks);
        proof {
            let es = flat_elems(chunks@);
            assert(es.map_values(|x: u32| x.raw()) =~= raws_of(SpecValue::ArrayU32(es)));
        }
        Ok(out)
    }

    /// Encode chunks of a 64-bit unsigned bulk array.
    pub fn encode_array_u64(self, chunks: &Vec<Vec<u64>>) -> (r: Result<ByteStream, Error>)
        ensures
            r matches Ok(s) && chunks_flat(s@) == wire_of(SpecValue::ArrayU64(flat_elems(chunks@))),
    {
        let out = self.encode_array_raw::<8, u64>(Type::U64, chunks);
        proof {
            let es = flat_elems(chunks@);
            assert(es.map_values(|x: u64| x.raw()) =~= raws_of(SpecValue::ArrayU64(es)));
        }
        Ok(out)
    }

    /// Encode chunks of an 8-bit signed bulk array.
    pub fn encode_array_i8(self, chunks: &Vec<Vec<i8>>) -> (r: Result<ByteStream, Error>)
        ensures
            r matches Ok(s) && chunks_flat(s@) == wire_of(SpecValue::ArrayI8(flat_elems(chunks@))),
    {
        let out = self.encode_array_raw::<1, i8>(Type::I8, chunks);
        proof {
            let es = flat_elems(chunks@);
            assert(es.map_values(|x: i8| x.raw()) =~= raws_of(SpecValue::ArrayI8(es)));
        }
        Ok(out)
    }

    /// Encode chunks of a 16-bit signed bulk array.
    pub fn encode_array_i16(self, chunks: &Vec<Vec<i16>>) -> (r: Result<ByteStream, Error>)
        ensures
            r matches Ok(s) && chunks_flat(s@) == wire_of(SpecValue::ArrayI16(flat_elems(chunks@))),
    {
        let out = self.encode_array_raw::<2, i16>(Type::I16, chunks);
        proof {
            let es = flat_elems(chunks@);
            assert(es.map_values(|x: i16| x.raw()) =~= raws_of(SpecValue::ArrayI16(es)));
        }
        Ok(out)
    }

    /// Encode chunks of a 32-bit signed bulk array.
    pub fn encode_array_i32(self, chunks: &Vec<Vec<i32>>) -> (r: Result<ByteStream, Error>)
        ensures
            r matches Ok(s) && chunks_flat(s@) == wire_of(SpecValue::ArrayI32(flat_elems(chunks@))),
    {
        let out = self.encode_array_raw::<4, i32>(Type::I32, chunks);
        proof {
            let es = flat_elems(chunks@);
            assert(es.map_values(|x: i32| x.raw()) =~= raws_of(SpecValue::ArrayI32(es)));
        }
        Ok(out)
    }

    /// Encode chunks of a 64-bit signed bulk array.
    pub fn encode_array_i64(self, chunks: &Vec<Vec<i64>>) -> (r: Result<ByteStream, Error>)
        ensures
            r matches Ok(s) && chunks_flat(s@) == wire_of(SpecValue::ArrayI64(flat_elems(chunks@))),
    {
        let out = self.encode_array_raw::<8, i64>(Type::I64, chunks);
        proof {
            let es = flat_elems(chunks@);
            assert(es.map_values(|x: i64| x.raw()) =~= raws_of(SpecValue::ArrayI64(es)));
        }
        Ok(out)
    }

    /// Encode chunks of a 32-bit float bulk array, elements given as
    /// IEEE 754 bit patterns.
    pub fn encode_array_f32_bits(self, chunks: &Vec<Vec<u32>>) -> (r: Result<ByteStream, Error>)
        ensures
            r matches Ok(s) && chunks_flat(s@) == wire_of(
                SpecValue::ArrayF32Bits(flat_elems(chunks@)),
            ),
    {
        let out = self.encode_array_raw::<4, u32>(Type::F32, chunks);
        proof {
            let es = flat_elems(chunks@);
            assert(es.map_values(|x: u32| x.raw()) =~= raws_of(SpecValue::ArrayF32Bits(es)));
        }
        Ok(out)
    }

    /// Encode chunks of a 64-bit float bulk array, elements given as
    /// IEEE 754 bit patterns.
    pub fn encode_array_f64_bits(self, chunks: &Vec<Vec<u64>>) -> (r: Result<ByteStream, Error>)
        ensures
            r matches Ok(s) && chunks_flat(s@) == wire_of(
                SpecValue::ArrayF64Bits(flat_elems(chunks@)),
            ),
    {
        let out = self.encode_array_raw::<8, u64>(Type::F64, chunks);
        proof {
            let es = flat_elems(chunks@);
            assert(es.map_values(|x: u64| x.raw()) =~= raws_of(SpecValue::ArrayF64Bits(es)));
        }
        Ok(out)
    }

    /// Encode raw bytes as an 8-bit unsigned bulk array in one chunk.
    pub fn collect_bytes(self, bytes: &Vec<u8>) -> (r: Result<ByteStream, Error>)
        ensures
            r matches Ok(s) && chunks_flat(s@) == wire_of(SpecValue::ArrayU8(bytes@)),
    {
        let mut chunks: Vec<Vec<u8>> = Vec::new();
        let mut one: Vec<u8> = Vec::new();
        one.extend_from_slice(bytes.as_slice());
        chunks.push(one);
        proof {
            lemma_flat_elems_empty::<u8>();
            lemma_flat_elems_push(Seq::empty(), chunks@[0]);
            assert(Seq::<Vec<u8>>::empty().push(chunks@[0]) =~= chunks@);
            assert(flat_elems(chunks@) =~= bytes@);
        }
        self.encode_array_u8(&chunks)
    }

    /// Encode raw bytes as an 8-bit unsigned bulk array.
    pub fn encode_bytes(self, bytes: &Vec<u8>) -> (r: Result<ByteStream, Error>)
        ensures
            r matches Ok(s) && chunks_flat(s@) == wire_of(SpecValue::ArrayU8(bytes@)),
    {
        self.collect_bytes(bytes)
    }

    /// Encode a whole value tree into one stream.
    pub fn encode_value(&self, v: &Value) -> (r: Result<ByteStream, Error>)
        ensures
            r matches Ok(s) && chunks_flat(s@) == wire_of(v@),
        decreases v,
    {
        match v {
            Value::Nil => Encoder.encode_none(),
            Value::Bool(b) => Encoder.encode_bool(*b),
            Value::U8(x) => Encoder.encode_u8(*x),
            Value::U16(x) => Encoder.encode_u16(*x),
            Value::U32(x) => Encoder.encode_u32(*x),
            Value::U64(x) => Encoder.encode_u64(*x),
            Value::I8(x) => Encoder.encode_i8(*x),
            Value::I16(x) => Encoder.encode_i16(*x),
            Value::I32(x) => Encoder.encode_i32(*x),
            Value::I64(x) => Encoder.encode_i64(*x),
            Value::F32Bits(x) => Encoder.encode_f32_bits(*x),
            Value::F64Bits(x) => Encoder.encode_f64_bits(*x),
            Value::Text(bytes) => Encoder.encode_text(bytes.as_slice()),
            Value::List(items) => {
                let mut out: ByteStream = Vec::new();
                out.push(vec![LIST_BEGIN]);
                proof {
                    lemma_chunks_flat_empty();
                    lemma_chunks_flat_push(Seq::empty(), out@[0]);
                    assert(Seq::<Vec<u8>>::empty().push(out@[0]) =~= out@);
                    assert(out@[0]@ =~= seq![LIST_BEGIN]);
                    assert(items@.take(0) =~= Seq::<Value>::empty());
                    assert(view_items(Seq::<Value>::empty()) == Seq::<SpecValue>::empty());
                    assert(wire_list(Seq::<SpecValue>::empty()) == Seq::<u8>::empty());
                    assert(chunks_flat(out@) =~= seq![LIST_BEGIN] + wire_list(
                        view_items(items@.take(0)),
                    ));
                }
                let mut i: usize = 0;
                #[verifier::loop_isolation(false)]
                while i < items.len()
                    invariant
                        i <= items@.len(),
                        chunks_flat(out@) == seq![LIST_BEGIN] + wire_list(
                            view_items(items@.take(i as int)),
                        ),
                    decreases items@.len() - i,
                {
                    let sub = self.encode_value(&items[i]);
                    match sub {
                        Ok(mut s) => {
                            let ghost out0 = out@;
                            let ghost s0 = s@;
                            out.append(&mut s);
                            proof {
                                lemma_chunks_flat_concat(out0, s0);
                                assert(items@.take(i as int).push(items@[i as int]) =~= items@.take(
                                    i + 1,
                                ));
                                crate::value::lemma_view_items_push(
                                    items@.take(i as int),
                                    items@[i as int],
                                );
                                lemma_wire_list_push(
                                    view_items(items@.take(i as int)),
                                    items@[i as int]@,
                                );
                                assert(chunks_flat(out@) =~= seq![LIST_BEGIN] + wire_list(
                                    view_items(items@.take(i + 1)),
                                ));
                            }
                        },
                        Err(e) => {
                            proof {
                                assert(false);
                            }
                            return Err(e);
                        },
                    }
                    i = i + 1;
                }
                let ghost out1 = out@;
                out.push(vec![LIST_END]);
                proof {
                    lemma_chunks_flat_push(out1, out@.last());
                    assert(out1.push(out@.last()) =~= out@);
                    assert(out@.last()@ =~= seq![LIST_END]);
                    assert(items@.take(items@.len() as int) =~= items@);
                    assert(chunks_flat(out@) =~= seq![LIST_BEGIN] + wire_list(view_items(items@))
                        + seq![LIST_END]);
                }
                Ok(out)
            },
            Value::Dict(entries) => {
                let mut out: ByteStream = Vec::new();
                out.push(vec![MAP_BEGIN]);
                proof {
                    lemma_chunks_flat_empty();
                    lemma_chunks_flat_push(Seq::empty(), out@[0]);
                    assert(Seq::<Vec<u8>>::empty().push(out@[0]) =~= out@);
                    assert(out@[0]@ =~= seq![MAP_BEGIN]);
                    assert(entries@.take(0) =~= Seq::<(Value, Value)>::empty());
                    assert(view_entries(Seq::<(Value, Value)>::empty()) == Seq::<(SpecValue,
                    SpecValue)>::empty());
                    assert(wire_entries(Seq::<(SpecValue, SpecValue)>::empty())
                        == Seq::<u8>::empty());
                    assert(chunks_flat(out@) =~= seq![MAP_BEGIN] + wire_entries(
                        view_entries(entries@.take(0)),
                    ));
                }
                let mut i: usize = 0;
                #[verifier::loop_isolation(false)]
                while i < entries.len()
                    invariant
                        i <= entries@.len(),
                        chunks_flat(out@) == seq![MAP_BEGIN] + wire_entries(
                            view_entries(entries@.take(i as int)),
                        ),
                    decreases entries@.len() - i,
                {
                    let ks = self.encode_value(&entries[i].0);
                    let vs = self.encode_value(&entries[i].1);
                    match (ks, vs) {
                        (Ok(mut k), Ok(mut s)) => {
                            let ghost out0 = out@;
                            let ghost k0 = k@;
                            out.append(&mut k);
                            proof {
                                lemma_chunks_flat_concat(out0, k0);
                            }
                            let ghost out1 = out@;
                            let ghost s0 = s@;
                            out.append(&mut s);
                            proof {
                                lemma_chunks_flat_concat(out1, s0);
                                assert(entries@.take(i as int).push(entries@[i as int])
                                    =~= entries@.take(i + 1));
                                crate::value::lemma_view_entries_push(
                                    entries@.take(i as int),
                                    entries@[i as int],
                                );
                                lemma_wire_entries_push(
                                    view_entries(entries@.take(i as int)),
                                    (entries@[i as int].0@, entries@[i as int].1@),
                                );
                                assert(chunks_flat(out@) =~= seq![MAP_BEGIN] + wire_entries(
                                    view_entries(entries@.take(i + 1)),
                                ));
                            }
                        },
                        (Err(e), _) => {
                            proof {
                                assert(false);
                            }
                            return Err(e);
                        },
                        (_, Err(e)) => {
                            proof {
                                assert(false);
                            }
                            return Err(e);
                        },
                    }
                    i = i + 1;
                }
                let ghost out1 = out@;
                out.push(vec![MAP_END]);
                proof {
                    lemma_chunks_flat_push(out1, out@.last());
                    assert(out1.push(out@.last()) =~= out@);
                    assert(out@.last()@ =~= seq![MAP_END]);
                    assert(entries@.take(entries@.len() as int) =~= entries@);
                    assert(chunks_flat(out@) =~= seq![MAP_BEGIN] + wire_entries(
                        view_entries(entries@),
                    ) + seq![MAP_END]);
                }
                Ok(out)
            },
            Value::ArrayBool(xs) => {
                let r = self.whole_array_raw::<1, bool>(Type::Bool, xs);
                proof {
                    assert(xs@.map_values(|x: bool| x.raw()) =~= raws_of(
                        SpecValue::ArrayBool(xs@),
                    ));
                }
                r
            },
            Value::ArrayU8(xs) => {
                let r = self.whole_array_raw::<1, u8>(Type::U8, xs);
                proof {
                    assert(xs@.map_values(|x: u8| x.raw()) =~= raws_of(
                        SpecValue::ArrayU8(xs@),
                    ));
                }
                r
            },
            Value::ArrayU16(xs) => {
                let r = self.whole_array_raw::<2, u16>(Type::U16, xs);
                proof {
                    assert(xs@.map_values(|x: u16| x.raw()) =~= raws_of(
                        SpecValue::ArrayU16(xs@),
                    ));
                }
                r
            },
            Value::ArrayU32(xs) => {
                let r = self.whole_array_raw::<4, u32>(Type::U32, xs);
                proof {
                    assert(xs@.map_values(|x: u32| x.raw()) =~= raws_of(
                        SpecValue::ArrayU32(xs@),
                    ));
                }
                r
            },
            Value::ArrayU64(xs) => {
                let r = self.whole_array_raw::<8, u64>(Type::U64, xs);
                proof {
                    assert(xs@.map_values(|x: u64| x.raw()) =~= raws_of(
                        SpecValue::ArrayU64(xs@),
                    ));
                }
                r
            },
            Value::ArrayI8(xs) => {
                let r = self.whole_array_raw::<1, i8>(Type::I8, xs);
                proof {
                    assert(xs@.map_values(|x: i8| x.raw()) =~= raws_of(
                        SpecValue::ArrayI8(xs@),
                    ));
                }
                r
            },
            Value::ArrayI16(xs) => {
                let r = self.whole_array_raw::<2, i16>(Type::I16, xs);
                proof {
                    assert(xs@.map_values(|x: i16| x.raw()) =~= raws_of(
                        SpecValue::ArrayI16(xs@),
                    ));
                }
                r
            },
            Value::ArrayI32(xs) => {
                let r = self.whole_array_raw::<4, i32>(Type::I32, xs);
                proof {
                    assert(xs@.map_values(|x: i32| x.raw()) =~= raws_of(
                        SpecValue::ArrayI32(xs@),
                    ));
                }
                r
            },
            Value::ArrayI64(xs) => {
                let r = self.whole_array_raw::<8, i64>(Type::I64, xs);
                proof {
                    assert(xs@.map_values(|x: i64| x.raw()) =~= raws_of(
                        SpecValue::ArrayI64(xs@),
                    ));
                }
                r
            },
            Value::ArrayF32Bits(xs) => {
                let r = self.whole_array_raw::<4, u32>(Type::F32, xs);
                proof {
                    assert(xs@.map_values(|x: u32| x.raw()) =~= raws_of(
                        SpecValue::ArrayF32Bits(xs@),
                    ));
                }
                r
            },
            Value::ArrayF64Bits(xs) => {
                let r = self.whole_array_raw::<8, u64>(Type::F64, xs);
                proof {
                    assert(xs@.map_values(|x: u64| x.raw()) =~= raws_of(
                        SpecValue::ArrayF64Bits(xs@),
                    ));
                }
                r
            },
        }
    }

    /// Encode one whole bulk array in a single content chunk.
    fn whole_array_raw<const W: usize, T: IntoBytes<W> + Copy>(
        &self,
        k: Type,
        elems: &Vec<T>,
    ) -> (r: Result<ByteStream, Error>)
        requires
            k != Type::Nil,
            k.width() == W as nat,
        ensures
            r matches Ok(s) && chunks_flat(s@) == seq![ARRAY_DELIMIT, k.tag()] + escape_with(
                bulk_content(elems@.map_values(|x: T| x.raw()), W as nat),
                array_ctl(),
            ) + seq![ARRAY_DELIMIT],
    {
        let content = self.chunk_bytes::<W, T>(elems);
        let mut chunks: Vec<Vec<u8>> = Vec::new();
        let ghost content0 = content@;
        chunks.push(content);
        proof {
            lemma_chunks_flat_empty();
            lemma_chunks_flat_push(Seq::empty(), chunks@[0]);
            assert(Seq::<Vec<u8>>::empty().push(chunks@[0]) =~= chunks@);
            assert(chunks_flat(chunks@) =~= content0);
        }
        Ok(self.array_frame(k, &chunks))
    }

    /// Begin an eagerly accumulated map.
    pub fn encode_map(self, size_hint: Option<usize>) -> (r: Result<MapEncoder, Error>)
        ensures
            r matches Ok(m) && !m.key_pending() && m.body_bytes() == Seq::<u8>::empty(),
    {
        Ok(MapEncoder::new(size_hint))
    }

    /// Begin an eagerly accumulated sequence.
    pub fn encode_seq(self, size_hint: Option<usize>) -> (r: Result<SequenceEncoder, Error>)
        ensures
            r matches Ok(s) && s.body_bytes() == Seq::<u8>::empty(),
    {
        Ok(SequenceEncoder::new(size_hint))
    }

    /// Begin an eagerly accumulated fixed-arity tuple, encoded as a
    /// sequence.
    pub fn encode_tuple(self, len: usize) -> (r: Result<SequenceEncoder, Error>)
        ensures
            r matches Ok(s) && s.body_bytes() == Seq::<u8>::empty(),
    {
        Ok(SequenceEncoder::new(Some(len)))
    }
}

/// Given an encodable value, return an encoded stream.
pub fn encode(value: &Value) -> (r: Result<ByteStream, Error>)
    ensures
        r matches Ok(s) && chunks_flat(s@) == wire_of(value@),
{
    Encoder.encode_value(value)
}

/// An encoder for a map of keys to values.  Keys and values arrive as
/// already-encoded streams, one at a time, key before value; emission
/// is deferred until `end`, which chains the accumulated entries inside
/// the map framing.
pub struct MapEncoder {
    pending_key: Option<ByteStream>,
    body: ByteStream,
}

impl MapEncoder {
    /// Whether a key has been supplied and its value is still owed.
    pub closed spec fn key_pending(self) -> bool {
        self.pending_key is Some
    }

    /// The bytes of the pending key, if one is pending.
    pub closed spec fn pending_bytes(self) -> Seq<u8> {
        match self.pending_key {
            Some(k) => chunks_flat(k@),
            None => Seq::empty(),
        }
    }

    /// The bytes of all completed entries so far, in order.
    pub closed spec fn body_bytes(self) -> Seq<u8> {
        chunks_flat(self.body@)
    }

    fn new(size_hint: Option<usize>) -> (m: MapEncoder)
        ensures
            !m.key_pending(),
            m.body_bytes() == Seq::<u8>::empty(),
    {
        let body = match size_hint {
            Some(len) => Vec::with_capacity(len),
            None => Vec::new(),
        };
        proof {
            lemma_chunks_flat_empty();
        }
        MapEncoder { pending_key: None, body }
    }

    /// Supply the next key.  Fails with a misuse error, changing
    /// nothing, if the previous key's value has not been supplied yet.
    pub fn encode_key(&mut self, key: ByteStream) -> (r: Result<(), Error>)
        ensures
            r is Ok <==> !old(self).key_pending(),
            r is Ok ==> final(self).key_pending() && final(self).pending_bytes() == chunks_flat(
                key@,
            ) && final(self).body_bytes() == old(self).body_bytes(),
            r is Err ==> *final(self) == *old(self),
            r matches Err(e) ==> e.spec_kind() == ErrorKind::Misuse,
    {
        if self.pending_key.is_none() {
            self.pending_key = Some(key);
            Ok(())
        } else {
            Err(Error::misuse("a key was already supplied; encode its value first"))
        }
    }

    /// Supply the value of the pending key, completing one entry.
    /// Fails with a misuse error, changing nothing, if no key is
    /// pending.
    pub fn encode_value(&mut self, value: ByteStream) -> (r: Result<(), Error>)
        ensures
            r is Ok <==> old(self).key_pending(),
            r is Ok ==> !final(self).key_pending() && final(self).body_bytes() == old(
                self,
            ).body_bytes() + old(self).pending_bytes() + chunks_flat(value@),
            r is Err ==> *final(self) == *old(self),
            r matches Err(e) ==> e.spec_kind() == ErrorKind::Misuse,
    {
        let pending = self.pending_key.take();
        match pending {
            None => Err(Error::misuse("no key is pending; supply a key first")),
            Some(mut key) => {
                let ghost body0 = self.body@;
                let ghost key0 = key@;
                let mut value = value;
                self.body.append(&mut key);
                proof {
                    lemma_chunks_flat_concat(body0, key0);
                }
                let ghost body1 = self.body@;
                let ghost value0 = value@;
                self.body.append(&mut value);
                proof {
                    lemma_chunks_flat_concat(body1, value0);
                }
                Ok(())
            },
        }
    }

    /// Finish the map: the map-begin delimiter, every completed entry
    /// in order, and the map-end delimiter.  Fails with a misuse error
    /// if a key is pending without its value.
    pub fn end(self) -> (r: Result<ByteStream, Error>)
        ensures
            r is Ok <==> !self.key_pending(),
            r matches Ok(s) ==> chunks_flat(s@) == seq![MAP_BEGIN] + self.body_bytes() + seq![
                MAP_END,
            ],
            r matches Err(e) ==> e.spec_kind() == ErrorKind::Misuse,
    {
        if self.pending_key.is_some() {
            return Err(Error::misuse("a key is pending; encode its value before ending the map"));
        }
        let ghost body0 = self.body@;
        let mut out: ByteStream = Vec::new();
        out.push(vec![MAP_BEGIN]);
        proof {
            lemma_chunks_flat_empty();
            lemma_chunks_flat_push(Seq::empty(), out@[0]);
            assert(Seq::<Vec<u8>>::empty().push(out@[0]) =~= out@);
            assert(out@[0]@ =~= seq![MAP_BEGIN]);
        }
        let ghost out0 = out@;
        let mut body = self.body;
        out.append(&mut body);
        proof {
            lemma_chunks_flat_concat(out0, body0);
        }
        let ghost out1 = out@;
        out.push(vec![MAP_END]);
        proof {
            lemma_chunks_flat_push(out1, out@.last());
            assert(out1.push(out@.last()) =~= out@);
            assert(out@.last()@ =~= seq![MAP_END]);
            assert(chunks_flat(out@) =~= seq![MAP_BEGIN] + chunks_flat(body0) + seq![MAP_END]);
        }
        Ok(out)
    }
}

/// An encoder for a sequence of values, each arriving as an
/// already-encoded stream; emission is deferred until `end`.
pub struct SequenceEncoder {
    body: ByteStream,
}

impl SequenceEncoder {
    /// The bytes of all elements so far, in order.
    pub closed spec fn body_bytes(self) -> Seq<u8> {
        chunks_flat(self.body@)
    }

    fn new(size_hint: Option<usize>) -> (s: SequenceEncoder)
        ensures
            s.body_bytes() == Seq::<u8>::empty(),
    {
        let body = match size_hint {
            Some(len) => Vec::with_capacity(len),
            None => Vec::new(),
        };
        proof {
            lemma_chunks_flat_empty();
        }
        SequenceEncoder { body }
    }

    /// Append the next element.
    pub fn encode_element(&mut self, value: ByteStream) -> (r: Result<(), Error>)
        ensures
            r is Ok,
            final(self).body_bytes() == old(self).body_bytes() + chunks_flat(value@),
    {
        let ghost body0 = self.body@;
        let ghost value0 = value@;
        let mut value = value;
        self.body.append(&mut value);
        proof {
            lemma_chunks_flat_concat(body0, value0);
        }
        Ok(())
    }

    /// Finish the sequence: the list-begin delimiter, every element in
    /// order, and the list-end delimiter.
    pub fn end(self) -> (r: Result<ByteStream, Error>)
        ensures
            r matches Ok(s) && chunks_flat(s@) == seq![LIST_BEGIN] + self.body_bytes() + seq![
                LIST_END,
            ],
    {
        let ghost body0 = self.body@;
        let mut out: ByteStream = Vec::new();
        out.push(vec![LIST_BEGIN]);
        proof {
            lemma_chunks_flat_empty();
            lemma_chunks_flat_push(Seq::empty(), out@[0]);
            assert(Seq::<Vec<u8>>::empty().push(out@[0]) =~= out@);
            assert(out@[0]@ =~= seq![LIST_BEGIN]);
        }
        let ghost out0 = out@;
        let mut body = self.body;
        out.append(&mut body);
        proof {
            lemma_chunks_flat_concat(out0, body0);
        }
        let ghost out1 = out@;
        out.push(vec![LIST_END]);
        proof {
            lemma_chunks_flat_push(out1, out@.last());
            assert(out1.push(out@.last()) =~= out@);
            assert(out@.last()@ =~= seq![LIST_END]);
            assert(chunks_flat(out@) =~= seq![LIST_BEGIN] + chunks_flat(body0) + seq![LIST_END]);
        }
        Ok(out)
    }
}

/// The fully lazy map and sequence form: a pull-driven state machine
/// that emits the begin framing with the first item, each item's
/// stream as it is supplied, and the end framing on `finish`.  Memory
/// is bounded by one item at a time; nothing is accumulated.
pub struct StreamEncoder {
    begin: u8,
    end: u8,
    started: bool,
    finished: bool,
    body: Ghost<Seq<u8>>,
}

impl StreamEncoder {
    /// Whether the begin framing has been emitted.
    pub closed spec fn spec_started(self) -> bool {
        self.started
    }

    /// Whether the end framing has been emitted.
    pub closed spec fn spec_finished(self) -> bool {
        self.finished
    }

    /// The begin delimiter of this stream.
    pub closed spec fn begin_byte(self) -> u8 {
        self.begin
    }

    /// The end delimiter of this stream.
    pub closed spec fn end_byte(self) -> u8 {
        self.end
    }

    /// The bytes of all items emitted so far, without the framing.
    pub closed spec fn body_bytes(self) -> Seq<u8> {
        self.body@
    }

    /// Whether the begin framing has been emitted.
    pub fn is_started(&self) -> (b: bool)
        ensures
            b == self.spec_started(),
    {
        self.started
    }

    /// Whether the end framing has been emitted.
    pub fn is_finished(&self) -> (b: bool)
        ensures
            b == self.spec_finished(),
    {
        self.finished
    }

    /// A lazy list encoding.
    pub fn for_list() -> (s: StreamEncoder)
        ensures
            !s.spec_started(),
            !s.spec_finished(),
            s.begin_byte() == LIST_BEGIN,
            s.end_byte() == LIST_END,
            s.body_bytes() == Seq::<u8>::empty(),
    {
        StreamEncoder {
            begin: LIST_BEGIN,
            end: LIST_END,
            started: false,
            finished: false,
            body: Ghost(Seq::empty()),
        }
    }

    /// A lazy map encoding.
    pub fn for_map() -> (s: StreamEncoder)
        ensures
            !s.spec_started(),
            !s.spec_finished(),
            s.begin_byte() == MAP_BEGIN,
            s.end_byte() == MAP_END,
            s.body_bytes() == Seq::<u8>::empty(),
    {
        StreamEncoder {
            begin: MAP_BEGIN,
            end: MAP_END,
            started: false,
            finished: false,
            body: Ghost(Seq::empty()),
        }
    }

    /// Emit the next item: the begin framing first if this is the
    /// first item, then the item's own stream.
    pub fn next_item(&mut self, item: ByteStream) -> (out: ByteStream)
        requires
            !old(self).spec_finished(),
        ensures
            chunks_flat(out@) == (if old(self).spec_started() {
                Seq::<u8>::empty()
            } else {
                seq![old(self).begin_byte()]
            }) + chunks_flat(item@),
            final(self).spec_started(),
            !final(self).spec_finished(),
            final(self).begin_byte() == old(self).begin_byte(),
            final(self).end_byte() == old(self).end_byte(),
            final(self).body_bytes() == old(self).body_bytes() + chunks_flat(item@),
    {
        let ghost item0 = item@;
        let mut out: ByteStream = Vec::new();
        proof {
            lemma_chunks_flat_empty();
        }
        let ghost started0 = self.started;
        if !self.started {
            out.push(vec![self.begin]);
            proof {
                lemma_chunks_flat_push(Seq::empty(), out@[0]);
                assert(Seq::<Vec<u8>>::empty().push(out@[0]) =~= out@);
                assert(out@[0]@ =~= seq![self.begin]);
            }
            self.started = true;
        }
        let ghost out0 = out@;
        let mut item = item;
        out.append(&mut item);
        proof {
            lemma_chunks_flat_concat(out0, item0);
            if started0 {
                assert(chunks_flat(out@) =~= Seq::<u8>::empty() + chunks_flat(item0));
            }
        }
        self.body = Ghost(self.body@ + chunks_flat(item0));
        out
    }

    /// Emit the next map entry: the key's stream immediately followed
    /// by the value's stream.
    pub fn next_entry(&mut self, key: ByteStream, value: ByteStream) -> (out: ByteStream)
        requires
            !old(self).spec_finished(),
        ensures
            chunks_flat(out@) == (if old(self).spec_started() {
                Seq::<u8>::empty()
            } else {
                seq![old(self).begin_byte()]
            }) + chunks_flat(key@) + chunks_flat(value@),
            final(self).spec_started(),
            !final(self).spec_finished(),
            final(self).begin_byte() == old(self).begin_byte(),
            final(self).end_byte() == old(self).end_byte(),
            final(self).body_bytes() == old(self).body_bytes() + chunks_flat(key@) + chunks_flat(
                value@,
            ),
    {
        let ghost key0 = key@;
        let ghost value0 = value@;
        let mut out = self.next_item(key);
        let ghost out0 = out@;
        let mut value = value;
        out.append(&mut value);
        proof {
            lemma_chunks_flat_concat(out0, value0);
        }
        self.body = Ghost(self.body@ + chunks_flat(value0));
        out
    }

    /// Emit the end framing, and the begin framing first if no item
    /// was ever supplied.
    pub fn finish(&mut self) -> (out: ByteStream)
        requires
            !old(self).spec_finished(),
        ensures
            chunks_flat(out@) == (if old(self).spec_started() {
                Seq::<u8>::empty()
            } else {
                seq![old(self).begin_byte()]
            }) + seq![old(self).end_byte()],
            final(self).spec_finished(),
            final(self).body_bytes() == old(self).body_bytes(),
    {
        let mut out: ByteStream = Vec::new();
        proof {
            lemma_chunks_flat_empty();
        }
        let ghost started0 = self.started;
        if !self.started {
            out.push(vec![self.begin]);
            proof {
                lemma_chunks_flat_push(Seq::empty(), out@[0]);
                assert(Seq::<Vec<u8>>::empty().push(out@[0]) =~= out@);
                assert(out@[0]@ =~= seq![self.begin]);
            }
            self.started = true;
        }
        let ghost out0 = out@;
        out.push(vec![self.end]);
        self.finished = true;
        proof {
            lemma_chunks_flat_push(out0, out@.last());
            assert(out0.push(out@.last()) =~= out@);
            assert(out@.last()@ =~= seq![self.end]);
            if started0 {
                assert(chunks_flat(out@) =~= Seq::<u8>::empty() + seq![self.end]);
            } else {
                assert(chunks_flat(out@) =~= seq![self.begin] + seq![self.end]);
            }
        }
        out
    }
}

} // verus!
