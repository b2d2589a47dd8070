//! Decode values from a chunked byte source.
//!
//! A `Decoder` owns the incoming bytes as a sequence of chunks, split
//! at arbitrary boundaries, and a growable buffer of bytes already
//! pulled from them.  Its observable state is `remaining()`: the
//! buffered bytes followed by the chunks not yet pulled.  Refilling
//! moves bytes from the chunks into the buffer and never changes
//! `remaining()`, so every contract here speaks of the concatenated
//! bytes alone — where the chunk boundaries fall can never matter.

use vstd::prelude::*;

verus! {

use crate::constants::{Type, ARRAY_DELIMIT, ESCAPE, LIST_BEGIN, LIST_END, MAP_BEGIN, MAP_END,
    STRING_DELIMIT};
use crate::element::{be_decode_range, be_value, lemma_be_value_bound, lemma_pow256_values,
    pow256};
use crate::value::{lemma_view_entries_push, lemma_view_items_push, view_entries, view_items,
    SpecValue, Value};
use crate::wire::{array_of, be_chunks, chunks_flat, esc_clean, fill_outcome, lemma_esc_clean_append,
    lemma_parse_value_bounds, lemma_scan_bound, lemma_skip_value_bounds, lemma_unescape_append_clean, parse_bulk_body, parse_list_tail,
    parse_map_tail, parse_scalar, parse_value, raws_ok, scalar_of, scan_bulk, scan_to_end,
    skip_list_tail, skip_map_tail, skip_value, unescape, valid_text, ErrorKind, Parsed};

/// How many scanned bytes a discarding scan keeps buffered before it
/// compacts the buffer.
pub const CHUNK_SIZE: usize = 4096;

/// How many pending bytes an error message quotes.
pub const SNIPPET_LEN: usize = 10;

/// Relies on `alloc::string::String::push`: it appends exactly the
/// given character.
pub assume_specification[ String::push ](s: &mut String, c: char)
    ensures
        final(s)@ == old(s)@.push(c),
;

/// Relies on `alloc::string::String::push_str`: it appends exactly the
/// given string slice.
pub assume_specification[ String::push_str ](s: &mut String, other: &str)
    ensures
        final(s)@ == old(s)@ + other@,
;

/// Relies on `core::str::from_utf8`: it accepts exactly the byte
/// strings that are valid UTF-8, as `vstd`'s own UTF-8 specification
/// defines them.
#[verifier::external_body]
fn utf8_check(bytes: &Vec<u8>) -> (r: bool)
    ensures
        r == valid_text(bytes@),
{
    core::str::from_utf8(bytes.as_slice()).is_ok()
}

/// An error encountered while decoding.
#[derive(Debug)]
pub struct Error {
    kind: ErrorKind,
    message: String,
}

impl Error {
    /// Which kind of error this is.
    pub closed spec fn spec_kind(self) -> ErrorKind {
        self.kind
    }

    /// Which kind of error this is.
    pub fn kind(&self) -> (k: ErrorKind)
        ensures
            k == self.spec_kind(),
    {
        self.kind
    }

    /// A human-readable description of the error.
    pub fn message(&self) -> &str {
        self.message.as_str()
    }

    /// An error adopted from a collaborator, such as the byte source.
    pub fn custom(message: String) -> (e: Error)
        ensures
            e.spec_kind() == ErrorKind::Custom,
    {
        Error { kind: ErrorKind::Custom, message }
    }

    fn with_kind(kind: ErrorKind, message: &str) -> (e: Error)
        ensures
            e.spec_kind() == kind,
    {
        Error { kind, message: message.to_owned() }
    }

    fn unexpected_end() -> (e: Error)
        ensures
            e.spec_kind() == ErrorKind::UnexpectedEnd,
    {
        Error::with_kind(ErrorKind::UnexpectedEnd, "unexpected end of stream")
    }
}

/// The rendering of one pending byte in a diagnostic snippet: ASCII
/// bytes stand for themselves, others are spelled out in decimal
/// between spaces.
pub open spec fn render_byte(b: u8) -> Seq<char> {
    if b < 128 {
        seq![b as char]
    } else {
        seq![
            ' ',
            (48 + b / 100) as char,
            (48 + (b / 10) % 10) as char,
            (48 + b % 10) as char,
            ' ',
        ]
    }
}

/// The rendering of a run of pending bytes.
pub open spec fn render_bytes(s: Seq<u8>) -> Seq<char>
    decreases s.len(),
{
    if s.len() == 0 {
        Seq::empty()
    } else {
        render_byte(s[0]) + render_bytes(s.skip(1))
    }
}

/// The rendering of one byte at a grammar position: printable bytes
/// stand for themselves, control bytes are spelled out in decimal.
fn push_byte_label(out: &mut String, b: u8) {
    if b < 32 {
        if b >= 10 {
            out.push((48 + b / 10) as char);
        }
        out.push((48 + b % 10) as char);
    } else if b < 128 {
        out.push(b as char);
    } else {
        out.push((48 + b / 100) as char);
        out.push((48 + (b / 10) % 10) as char);
        out.push((48 + b % 10) as char);
    }
}

/// Remove the escapes from the first `n` bytes of `v`.
fn unescape_prefix(v: &Vec<u8>, n: usize) -> (r: Vec<u8>)
    requires
        n <= v@.len(),
    ensures
        r@ == unescape(v@.take(n as int)),
{
    let ghost t = v@.take(n as int);
    let mut out: Vec<u8> = Vec::new();
    proof {
        assert(t.skip(0) =~= t);
        assert(out@ + unescape(t) =~= unescape(t));
    }
    let mut j: usize = 0;
    while j < n
        invariant
            j <= n,
            n <= v@.len(),
            t == v@.take(n as int),
            out@ + unescape(t.skip(j as int)) == unescape(t),
        decreases n - j,
    {
        let b = v[j];
        proof {
            assert(t.skip(j as int)[0] == b);
        }
        if b == ESCAPE {
            if j + 1 < n {
                out.push(v[j + 1]);
                proof {
                    assert(t.skip(j as int)[1] == v@[j + 1]);
                    assert(t.skip(j as int).skip(2) =~= t.skip(j + 2));
                    assert(unescape(t.skip(j as int)) == seq![t.skip(j as int)[1]] + unescape(
                        t.skip(j + 2),
                    ));
                    assert(out@ + unescape(t.skip(j + 2)) =~= unescape(t));
                }
                j = j + 2;
            } else {
                proof {
                    assert(t.skip(j as int).len() == 1);
                    assert(unescape(t.skip(j as int)) == Seq::<u8>::empty());
                    assert(t.skip(j + 1) =~= Seq::<u8>::empty());
                    assert(unescape(t.skip(j + 1)) == Seq::<u8>::empty());
                    assert(out@ + unescape(t.skip(j + 1)) =~= unescape(t));
                }
                j = j + 1;
            }
        } else {
            out.push(b);
            proof {
                assert(t.skip(j as int).skip(1) =~= t.skip(j + 1));
                assert(unescape(t.skip(j as int)) == seq![b] + unescape(t.skip(j + 1)));
                assert(out@ + unescape(t.skip(j + 1)) =~= unescape(t));
            }
            j = j + 1;
        }
    }
    proof {
        assert(t.skip(n as int) =~= Seq::<u8>::empty());
        assert(unescape(Seq::<u8>::empty()) == Seq::<u8>::empty());
        assert(out@ =~= unescape(t));
    }
    out
}

/// Split unescaped bulk content into fixed-width big-endian element
/// runs and read each as an unsigned number.  Content that is not a
/// whole number of runs is an invalid length.
fn decode_elems(content: &Vec<u8>, width: usize) -> (r: Result<Vec<u64>, Error>)
    requires
        1 <= width <= 8,
    ensures
        r is Ok <==> content@.len() % (width as nat) == 0,
        r matches Ok(vals) ==> vals@.map_values(|x: u64| x as nat) == be_chunks(
            content@,
            width as nat,
        ),
        r matches Err(e) ==> e.spec_kind() == ErrorKind::InvalidLength,
{
    if content.len() % width != 0 {
        let mut message = String::new();
        message.push_str("invalid length for a bulk array element run");
        return Err(Error { kind: ErrorKind::InvalidLength, message });
    }
    let count = content.len() / width;
    let clen = content.len();
    let mut vals: Vec<u64> = Vec::new();
    let mut j: usize = 0;
    while j < count
        invariant
            1 <= width <= 8,
            clen == content@.len(),
            count == content@.len() / width as nat,
            content@.len() % width as nat == 0,
            j <= count,
            vals@.len() == j,
            forall|t: int|
                0 <= t < j ==> #[trigger] (vals@[t] as nat) == be_value(
                    content@.subrange(t * width, (t + 1) * width),
                ),
        decreases count - j,
    {
        proof {
            assert((j + 1) * width <= content@.len()) by (nonlinear_arith)
                requires
                    j < count,
                    count == content@.len() / width as nat,
                    content@.len() % width as nat == 0,
                    1 <= width,
            ;
            assert(j * width + width == (j + 1) * width) by (nonlinear_arith);
        }
        let v = be_decode_range(content, j * width, width);
        vals.push(v);
        j = j + 1;
    }
    proof {
        assert(vals@.map_values(|x: u64| x as nat) =~= be_chunks(content@, width as nat));
    }
    Ok(vals)
}

/// Check that every raw reading is a valid boolean payload and read
/// them as booleans.
fn vals_to_bool(vals: &Vec<u64>) -> (r: Result<Vec<bool>, Error>)
    ensures
        r is Ok <==> forall|t: int| 0 <= t < vals@.len() ==> #[trigger] vals@[t] <= 1,
        r matches Ok(out) ==> out@ == vals@.map_values(|x: u64| x == 1),
        r matches Err(e) ==> e.spec_kind() == ErrorKind::InvalidValue,
{
    let mut out: Vec<bool> = Vec::new();
    let mut j: usize = 0;
    while j < vals.len()
        invariant
            j <= vals@.len(),
            out@ == vals@.take(j as int).map_values(|x: u64| x == 1),
            forall|t: int| 0 <= t < j ==> #[trigger] vals@[t] <= 1,
        decreases vals@.len() - j,
    {
        let v = vals[j];
        if v > 1 {
            let mut message = String::new();
            message.push_str("invalid boolean payload in a bulk array");
            return Err(Error { kind: ErrorKind::InvalidValue, message });
        }
        out.push(v == 1);
        proof {
            assert(vals@.take(j as int).push(vals@[j as int]) =~= vals@.take(j + 1));
            assert(vals@.take(j + 1).map_values(|x: u64| x == 1) =~= vals@.take(
                j as int,
            ).map_values(|x: u64| x == 1).push(vals@[j as int] == 1));
        }
        j = j + 1;
    }
    proof {
        assert(vals@.take(vals@.len() as int) =~= vals@);
    }
    Ok(out)
}

/// The bulk-array value of kind `k` with the given raw element
/// readings.  Only booleans restrict their value space; every other
/// kind reads the fixed-width run as its two's-complement or unsigned
/// value.
fn array_value(k: Type, vals: Vec<u64>) -> (r: Result<Value, Error>)
    requires
        k != Type::Nil,
    ensures
        ({
            let raws = vals@.map_values(|x: u64| x as nat);
            &&& (r is Ok <==> raws_ok(k, raws))
            &&& (r matches Ok(v) ==> v@ == array_of(k, raws))
            &&& (r matches Err(e) ==> e.spec_kind() == ErrorKind::InvalidValue)
        }),
{
    let ghost raws = vals@.map_values(|x: u64| x as nat);
    match k {
        Type::Bool => {
            match vals_to_bool(&vals) {
                Ok(out) => {
                    proof {
                        assert(out@ =~= raws.map_values(|r: nat| r == 1));
                        assert forall|t: int| 0 <= t < raws.len() implies #[trigger] raws[t]
                            <= 1 by {
                            assert(raws[t] == vals@[t] as nat);
                            assert(vals@[t] <= 1);
                        }
                    }
                    Ok(Value::ArrayBool(out))
                },
                Err(e) => {
                    proof {
                        assert(exists|t: int| 0 <= t < vals@.len() && !(#[trigger] vals@[t] <= 1));
                        let t = choose|t: int| 0 <= t < vals@.len() && !(#[trigger] vals@[t] <= 1);
                        assert(raws[t] == vals@[t] as nat);
                        assert(!raws_ok(k, raws));
                    }
                    Err(e)
                },
            }
        },
        Type::U8 => {
            let mut out: Vec<u8> = Vec::new();
            let mut j: usize = 0;
            while j < vals.len()
                invariant
                    j <= vals@.len(),
                    out@ == vals@.take(j as int).map_values(|x: u64| x as u8),
                decreases vals@.len() - j,
            {
                out.push(vals[j] as u8);
                proof {
                    assert(vals@.take(j as int).push(vals@[j as int]) =~= vals@.take(j + 1));
                    assert(vals@.take(j + 1).map_values(|x: u64| x as u8) =~= vals@.take(
                        j as int,
                    ).map_values(|x: u64| x as u8).push(vals@[j as int] as u8));
                }
                j = j + 1;
            }
            proof {
                assert(vals@.take(vals@.len() as int) =~= vals@);
                assert(out@ =~= raws.map_values(|r: nat| r as u8));
            }
            Ok(Value::ArrayU8(out))
        },
        Type::U16 => {
            let mut out: Vec<u16> = Vec::new();
            let mut j: usize = 0;
            while j < vals.len()
                invariant
                    j <= vals@.len(),
                    out@ == vals@.take(j as int).map_values(|x: u64| x as u16),
                decreases vals@.len() - j,
            {
                out.push(vals[j] as u16);
                proof {
                    assert(vals@.take(j as int).push(vals@[j as int]) =~= vals@.take(j + 1));
                    assert(vals@.take(j + 1).map_values(|x: u64| x as u16) =~= vals@.take(
                        j as int,
                    ).map_values(|x: u64| x as u16).push(vals@[j as int] as u16));
                }
                j = j + 1;
            }
            proof {
                assert(vals@.take(vals@.len() as int) =~= vals@);
                assert(out@ =~= raws.map_values(|r: nat| r as u16));
            }
            Ok(Value::ArrayU16(out))
        },
        Type::U32 => {
            let mut out: Vec<u32> = Vec::new();
            let mut j: usize = 0;
            while j < vals.len()
                invariant
                    j <= vals@.len(),
                    out@ == vals@.take(j as int).map_values(|x: u64| x as u32),
                decreases vals@.len() - j,
            {
                out.push(vals[j] as u32);
                proof {
                    assert(vals@.take(j as int).push(vals@[j as int]) =~= vals@.take(j + 1));
                    assert(vals@.take(j + 1).map_values(|x: u64| x as u32) =~= vals@.take(
                        j as int,
                    ).map_values(|x: u64| x as u32).push(vals@[j as int] as u32));
                }
                j = j + 1;
            }
            proof {
                assert(vals@.take(vals@.len() as int) =~= vals@);
                assert(out@ =~= raws.map_values(|r: nat| r as u32));
            }
            Ok(Value::ArrayU32(out))
        },
        Type::U64 => {
            proof {
                assert(vals@ =~= raws.map_values(|r: nat| r as u64));
            }
            Ok(Value::ArrayU64(vals))
        },
        Type::I8 => {
            let mut out: Vec<i8> = Vec::new();
            let mut j: usize = 0;
            while j < vals.len()
                invariant
                    j <= vals@.len(),
                    out@ == vals@.take(j as int).map_values(|x: u64| (x as u8) as i8),
                decreases vals@.len() - j,
            {
                out.push((vals[j] as u8) as i8);
                proof {
                    assert(vals@.take(j as int).push(vals@[j as int]) =~= vals@.take(j + 1));
                    assert(vals@.take(j + 1).map_values(|x: u64| (x as u8) as i8) =~= vals@.take(
                        j as int,
                    ).map_values(|x: u64| (x as u8) as i8).push((vals@[j as int] as u8) as i8));
                }
                j = j + 1;
            }
            proof {
                assert(vals@.take(vals@.len() as int) =~= vals@);
                assert(out@ =~= raws.map_values(|r: nat| r as u8 as i8));
            }
            Ok(Value::ArrayI8(out))
        },
        Type::I16 => {
            let mut out: Vec<i16> = Vec::new();
            let mut j: usize = 0;
            while j < vals.len()
                invariant
                    j <= vals@.len(),
                    out@ == vals@.take(j as int).map_values(|x: u64| (x as u16) as i16),
                decreases vals@.len() - j,
            {
                out.push((vals[j] as u16) as i16);
                proof {
                    assert(vals@.take(j as int).push(vals@[j as int]) =~= vals@.take(j + 1));
                    assert(vals@.take(j + 1).map_values(|x: u64| (x as u16) as i16) =~= vals@.take(
                        j as int,
                    ).map_values(|x: u64| (x as u16) as i16).push((vals@[j as int] as u16) as i16));
                }
                j = j + 1;
            }
            proof {
                assert(vals@.take(vals@.len() as int) =~= vals@);
                assert(out@ =~= raws.map_values(|r: nat| r as u16 as i16));
            }
            Ok(Value::ArrayI16(out))
        },
        Type::I32 => {
            let mut out: Vec<i32> = Vec::new();
            let mut j: usize = 0;
            while j < vals.len()
                invariant
                    j <= vals@.len(),
                    out@ == vals@.take(j as int).map_values(|x: u64| (x as u32) as i32),
                decreases vals@.len() - j,
            {
                out.push((vals[j] as u32) as i32);
                proof {
                    assert(vals@.take(j as int).push(vals@[j as int]) =~= vals@.take(j + 1));
                    assert(vals@.take(j + 1).map_values(|x: u64| (x as u32) as i32) =~= vals@.take(
                        j as int,
                    ).map_values(|x: u64| (x as u32) as i32).push((vals@[j as int] as u32) as i32));
                }
                j = j + 1;
            }
            proof {
                assert(vals@.take(vals@.len() as int) =~= vals@);
                assert(out@ =~= raws.map_values(|r: nat| r as u32 as i32));
            }
            Ok(Value::ArrayI32(out))
        },
        Type::I64 => {
            let mut out: Vec<i64> = Vec::new();
            let mut j: usize = 0;
            while j < vals.len()
                invariant
                    j <= vals@.len(),
                    out@ == vals@.take(j as int).map_values(|x: u64| x as i64),
                decreases vals@.len() - j,
            {
                out.push(vals[j] as i64);
                proof {
                    assert(vals@.take(j as int).push(vals@[j as int]) =~= vals@.take(j + 1));
                    assert(vals@.take(j + 1).map_values(|x: u64| x as i64) =~= vals@.take(
                        j as int,
                    ).map_values(|x: u64| x as i64).push(vals@[j as int] as i64));
                }
                j = j + 1;
            }
            proof {
                assert(vals@.take(vals@.len() as int) =~= vals@);
                assert(out@ =~= raws.map_values(|r: nat| r as u64 as i64));
            }
            Ok(Value::ArrayI64(out))
        },
        Type::F32 => {
            let mut out: Vec<u32> = Vec::new();
            let mut j: usize = 0;
            while j < vals.len()
                invariant
                    j <= vals@.len(),
                    out@ == vals@.take(j as int).map_values(|x: u64| x as u32),
                decreases vals@.len() - j,
            {
                out.push(vals[j] as u32);
                proof {
                    assert(vals@.take(j as int).push(vals@[j as int]) =~= vals@.take(j + 1));
                    assert(vals@.take(j + 1).map_values(|x: u64| x as u32) =~= vals@.take(
                        j as int,
                    ).map_values(|x: u64| x as u32).push(vals@[j as int] as u32));
                }
                j = j + 1;
            }
            proof {
                assert(vals@.take(vals@.len() as int) =~= vals@);
                assert(out@ =~= raws.map_values(|r: nat| r as u32));
            }
            Ok(Value::ArrayF32Bits(out))
        },
        Type::F64 => {
            proof {
                assert(vals@ =~= raws.map_values(|r: nat| r as u64));
            }
            Ok(Value::ArrayF64Bits(vals))
        },
        Type::Nil => {
            proof {
                assert(false);
            }
            Err(Error::unexpected_end())
        },
    }
}

/// The scalar value of kind `k` with unsigned payload reading `raw`.
fn scalar_value(k: Type, raw: u64) -> (v: Value)
    requires
        k != Type::Nil,
    ensures
        v@ == scalar_of(k, raw as nat),
{
    match k {
        Type::Bool => Value::Bool(raw == 1),
        Type::U8 => Value::U8(raw as u8),
        Type::U16 => Value::U16(raw as u16),
        Type::U32 => Value::U32(raw as u32),
        Type::U64 => Value::U64(raw),
        Type::I8 => Value::I8((raw as u8) as i8),
        Type::I16 => Value::I16((raw as u16) as i16),
        Type::I32 => Value::I32((raw as u32) as i32),
        Type::I64 => Value::I64(raw as i64),
        Type::F32 => Value::F32Bits(raw as u32),
        Type::F64 => Value::F64Bits(raw),
        Type::Nil => Value::Nil,
    }
}

/// A structure that decodes values from a chunked byte source.
pub struct Decoder {
    chunks: Vec<Vec<u8>>,
    pos: usize,
    buffer: Vec<u8>,
}

impl Decoder {
    /// The decoder's bookkeeping is sound: the chunk cursor is in
    /// range.
    pub closed spec fn wf(self) -> bool {
        self.pos <= self.chunks@.len()
    }

    spec fn pending(self) -> Seq<Seq<u8>> {
        self.chunks@.map_values(|c: Vec<u8>| c@).skip(self.pos as int)
    }

    /// Every byte not yet interpreted: the buffered bytes followed by
    /// the chunks not yet pulled.
    pub closed spec fn remaining(self) -> Seq<u8> {
        self.buffer@ + self.pending().flatten()
    }

    /// The bytes already pulled from the source but not yet
    /// interpreted.
    pub closed spec fn buffered(self) -> Seq<u8> {
        self.buffer@
    }

    /// Whether the source has no more chunks to yield.
    pub closed spec fn exhausted(self) -> bool {
        self.pos == self.chunks@.len()
    }

    spec fn fuel(self) -> nat {
        (self.chunks@.len() - self.pos) as nat
    }

    /// The buffered bytes are a prefix of the remaining bytes, and all
    /// of them once the source is exhausted.
    proof fn lemma_buffer_prefix(self)
        requires
            self.wf(),
        ensures
            self.buffered().len() <= self.remaining().len(),
            self.buffered() == self.remaining().take(self.buffered().len() as int),
            self.exhausted() ==> self.buffered() == self.remaining(),
    {
        assert(self.buffered() =~= self.remaining().take(self.buffered().len() as int));
        if self.exhausted() {
            assert(self.pending() =~= Seq::<Seq<u8>>::empty());
            assert(self.pending().flatten() =~= Seq::<u8>::empty());
            assert(self.buffered() =~= self.remaining());
        }
    }

    /// Create a decoder over a source already split into chunks.
    pub fn from_chunks(chunks: Vec<Vec<u8>>) -> (d: Decoder)
        ensures
            d.wf(),
            d.remaining() == chunks_flat(chunks@),
    {
        let d = Decoder { chunks, pos: 0, buffer: Vec::new() };
        proof {
            assert(d.pending() =~= d.chunks@.map_values(|c: Vec<u8>| c@));
            assert(d.remaining() =~= chunks_flat(d.chunks@));
        }
        d
    }

    /// Whether the source has no more chunks to yield.
    pub fn is_terminated(&self) -> (r: bool)
        ensures
            r == self.exhausted(),
    {
        self.pos == self.chunks.len()
    }

    /// Pull the next chunk into the buffer.  The remaining bytes are
    /// unchanged; only the split between buffered and pending moves.
    fn refill(&mut self)
        requires
            old(self).wf(),
            !old(self).exhausted(),
        ensures
            final(self).wf(),
            final(self).remaining() == old(self).remaining(),
            final(self).buffered() == old(self).buffered() + old(self).chunks@[
                old(self).pos as int
            ]@,
            final(self).fuel() == old(self).fuel() - 1,
    {
        let ghost pre = *self;
        let n = self.chunks.len();
        self.buffer.extend_from_slice(self.chunks[self.pos].as_slice());
        self.pos = self.pos + 1;
        proof {
            let m = pre.chunks@.map_values(|c: Vec<u8>| c@);
            let p0 = pre.pending();
            assert(p0.len() > 0);
            assert(p0.first() == m[pre.pos as int]);
            assert(p0.drop_first() =~= self.pending());
            assert(p0.flatten() == p0.first() + p0.drop_first().flatten());
            assert(self.remaining() =~= pre.remaining());
        }
    }

    /// Refill until more than `n` bytes are buffered or the source is
    /// exhausted.
    fn fetch_past(&mut self, n: usize)
        requires
            old(self).wf(),
        ensures
            final(self).wf(),
            final(self).remaining() == old(self).remaining(),
            final(self).buffered().len() > n || final(self).exhausted(),
            final(self).buffered().len() >= old(self).buffered().len(),
            final(self).exhausted() ==> old(self).exhausted() || final(self).buffered().len()
                >= old(self).buffered().len(),
    {
        while self.buffer.len() <= n && !self.is_terminated()
            invariant
                self.wf(),
                self.remaining() == old(self).remaining(),
                self.buffered().len() >= old(self).buffered().len(),
            decreases self.fuel(),
        {
            self.refill();
        }
    }

    /// Drop `n` interpreted bytes from the front of the buffer.
    fn consume(&mut self, n: usize)
        requires
            old(self).wf(),
            n <= old(self).buffered().len(),
        ensures
            final(self).wf(),
            final(self).buffered() == old(self).buffered().skip(n as int),
            final(self).remaining() == old(self).remaining().skip(n as int),
            final(self).exhausted() == old(self).exhausted(),
    {
        let ghost pre = *self;
        let tail = self.buffer.split_off(n);
        self.buffer = tail;
        proof {
            assert(self.buffer@ =~= pre.buffer@.skip(n as int));
            assert(self.pending() =~= pre.pending());
            assert(self.remaining() =~= pre.remaining().skip(n as int));
        }
    }

    /// A short rendering of the first pending bytes, for diagnostics:
    /// at most `max_len` bytes, ASCII as itself, anything else in
    /// decimal between spaces.
    pub fn contents(&self, max_len: usize) -> (r: String)
        ensures
            r@ == render_bytes(
                self.buffered().take(
                    if self.buffered().len() <= max_len as int {
                        self.buffered().len() as int
                    } else {
                        max_len as int
                    },
                ),
            ),
    {
        let len = if self.buffer.len() < max_len {
            self.buffer.len()
        } else {
            max_len
        };
        let ghost target = self.buffered().take(len as int);
        let mut out = String::new();
        proof {
            assert(target.skip(0) =~= target);
            assert(out@ + render_bytes(target) =~= render_bytes(target));
        }
        let mut i: usize = 0;
        while i < len
            invariant
                i <= len,
                len <= self.buffered().len(),
                target == self.buffered().take(len as int),
                out@ + render_bytes(target.skip(i as int)) == render_bytes(target),
            decreases len - i,
        {
            let b = self.buffer[i];
            proof {
                assert(target.skip(i as int)[0] == b);
                assert(target.skip(i as int).skip(1) =~= target.skip(i + 1));
                assert(render_bytes(target.skip(i as int)) == render_byte(b) + render_bytes(
                    target.skip(i + 1),
                ));
            }
            if b < 128 {
                out.push(b as char);
                proof {
                    assert(out@ + render_bytes(target.skip(i + 1)) =~= render_bytes(target));
                }
            } else {
                out.push(' ');
                out.push((48 + b / 100) as char);
                out.push((48 + (b / 10) % 10) as char);
                out.push((48 + b % 10) as char);
                out.push(' ');
                proof {
                    assert(out@ + render_bytes(target.skip(i + 1)) =~= render_bytes(target));
                }
            }
            i = i + 1;
        }
        proof {
            assert(target.skip(len as int) =~= Seq::<u8>::empty());
            assert(render_bytes(Seq::<u8>::empty()) == Seq::<char>::empty());
            assert(out@ =~= render_bytes(target));
        }
        out
    }

    fn delimiter_mismatch(&self, expected: u8, actual: u8) -> (e: Error)
        ensures
            e.spec_kind() == ErrorKind::UnexpectedDelimiter,
    {
        let mut message = String::new();
        message.push_str("unexpected delimiter ");
        push_byte_label(&mut message, actual);
        message.push_str(", expected ");
        push_byte_label(&mut message, expected);
        message.push_str(" at ");
        let snippet = self.contents(SNIPPET_LEN);
        message.push_str(snippet.as_str());
        Error { kind: ErrorKind::UnexpectedDelimiter, message }
    }

    /// Consume the expected delimiter byte, or fail: with
    /// `UnexpectedEnd` if no bytes remain, with `UnexpectedDelimiter`,
    /// consuming nothing, if the next byte is something else.
    pub fn expect_delimiter(&mut self, delimiter: u8) -> (r: Result<(), Error>)
        requires
            old(self).wf(),
        ensures
            final(self).wf(),
            r is Ok <==> old(self).remaining().len() > 0 && old(self).remaining()[0] == delimiter,
            r is Ok ==> final(self).remaining() == old(self).remaining().skip(1),
            r is Err ==> final(self).remaining() == old(self).remaining(),
            r matches Err(e) ==> e.spec_kind() == (if old(self).remaining().len() == 0 {
                ErrorKind::UnexpectedEnd
            } else {
                ErrorKind::UnexpectedDelimiter
            }),
    {
        self.fetch_past(0);
        proof {
            self.lemma_buffer_prefix();
        }
        if self.buffer.len() == 0 {
            return Err(Error::unexpected_end());
        }
        let b = self.buffer[0];
        proof {
            assert(old(self).remaining()[0] == b);
        }
        if b == delimiter {
            self.consume(1);
            Ok(())
        } else {
            Err(self.delimiter_mismatch(delimiter, b))
        }
    }

    /// Consume the delimiter byte if it is next and report whether it
    /// was.  Never fails: a mismatch, or an exhausted source, just
    /// answers no and consumes nothing.
    pub fn maybe_delimiter(&mut self, delimiter: u8) -> (r: Result<bool, Error>)
        requires
            old(self).wf(),
        ensures
            final(self).wf(),
            r matches Ok(b) && b == (old(self).remaining().len() > 0 && old(self).remaining()[0]
                == delimiter),
            r matches Ok(b) && b ==> final(self).remaining() == old(self).remaining().skip(1),
            r matches Ok(b) && !b ==> final(self).remaining() == old(self).remaining(),
    {
        self.fetch_past(0);
        proof {
            self.lemma_buffer_prefix();
        }
        if self.buffer.len() == 0 {
            return Ok(false);
        }
        if self.buffer[0] == delimiter {
            self.consume(1);
            Ok(true)
        } else {
            Ok(false)
        }
    }

    fn tag_mismatch(&self, expected: Type, actual: u8) -> (e: Error)
        ensures
            e.spec_kind() == (if Type::from_tag(actual) is Some {
                ErrorKind::UnexpectedDelimiter
            } else {
                ErrorKind::UnknownTypeTag
            }),
    {
        match Type::lookup_tag(actual) {
            Some(found) => {
                let mut message = String::new();
                message.push_str("invalid type: ");
                message.push_str(found.name());
                message.push_str(", expected ");
                message.push_str(expected.name());
                Error { kind: ErrorKind::UnexpectedDelimiter, message }
            },
            None => {
                let mut message = String::new();
                message.push_str("invalid value ");
                push_byte_label(&mut message, actual);
                message.push_str(", expected a type tag for ");
                message.push_str(expected.name());
                Error { kind: ErrorKind::UnknownTypeTag, message }
            },
        }
    }

    /// Consume one scalar of kind `k`: its tag byte and `k.width()`
    /// payload bytes, returned as the unsigned reading of the payload.
    fn parse_element(&mut self, k: Type) -> (r: Result<u64, Error>)
        requires
            old(self).wf(),
            k != Type::Nil,
        ensures
            final(self).wf(),
            ({
                let rem = old(self).remaining();
                let w = k.width();
                match parse_scalar(rem, k) {
                    Parsed::Found(raw, n) => r matches Ok(x) && x as nat == raw && final(self).remaining() == rem.skip(n as int),
                    Parsed::Fail(kind) => (r matches Err(e) && e.spec_kind() == kind) && (
                    if kind == ErrorKind::InvalidLength {
                        final(self).remaining() == rem
                    } else if kind == ErrorKind::InvalidValue {
                        final(self).remaining() == rem.skip(1 + w as int)
                    } else {
                        final(self).remaining() == rem.skip(1)
                    }),
                    Parsed::Short => false,
                }
            }),
    {
        let ghost rem = old(self).remaining();
        let w = k.byte_width();
        self.fetch_past(w);
        proof {
            self.lemma_buffer_prefix();
        }
        if self.buffer.len() < w + 1 {
            proof {
                assert(rem.len() < 1 + k.width());
            }
            let mut message = String::new();
            message.push_str("invalid length for ");
            message.push_str(k.name());
            return Err(Error { kind: ErrorKind::InvalidLength, message });
        }
        let tagb = self.buffer[0];
        proof {
            assert(rem[0] == tagb);
        }
        if tagb != k.to_tag() {
            self.consume(1);
            return Err(self.tag_mismatch(k, tagb));
        }
        self.consume(1);
        proof {
            self.lemma_buffer_prefix();
            assert(self.buffered().subrange(0, k.width() as int) =~= rem.skip(1).subrange(
                0,
                k.width() as int,
            ));
            assert(rem.skip(1).subrange(0, k.width() as int) =~= rem.subrange(
                1,
                1 + k.width() as int,
            ));
        }
        let raw = be_decode_range(&self.buffer, 0, w);
        self.consume(w);
        proof {
            assert(rem.skip(1).skip(k.width() as int) =~= rem.skip(1 + k.width() as int));
        }
        if k == Type::Bool && raw > 1 {
            let mut message = String::new();
            message.push_str("invalid boolean payload");
            return Err(Error { kind: ErrorKind::InvalidValue, message });
        }
        Ok(raw)
    }

    /// Consume the none sentinel: its tag byte alone.
    pub fn parse_unit(&mut self) -> (r: Result<(), Error>)
        requires
            old(self).wf(),
        ensures
            final(self).wf(),
            ({
                let rem = old(self).remaining();
                &&& (r is Ok <==> rem.len() > 0 && rem[0] == Type::Nil.tag())
                &&& (r is Ok ==> final(self).remaining() == rem.skip(1))
                &&& (r matches Err(e) ==> e.spec_kind() == (if rem.len() == 0 {
                    ErrorKind::UnexpectedEnd
                } else if Type::from_tag(rem[0]) is Some {
                    ErrorKind::UnexpectedDelimiter
                } else {
                    ErrorKind::UnknownTypeTag
                }) && final(self).remaining() == (if rem.len() == 0 {
                    rem
                } else {
                    rem.skip(1)
                }))
            }),
    {
        let ghost rem = old(self).remaining();
        self.fetch_past(0);
        proof {
            self.lemma_buffer_prefix();
        }
        if self.buffer.len() == 0 {
            return Err(Error::unexpected_end());
        }
        let b = self.buffer[0];
        proof {
            assert(rem[0] == b);
        }
        self.consume(1);
        if b == Type::Nil.to_tag() {
            Ok(())
        } else {
            Err(self.tag_mismatch(Type::Nil, b))
        }
    }

    /// Consume one boolean scalar.
    pub fn decode_bool(&mut self) -> (r: Result<bool, Error>)
        requires
            old(self).wf(),
        ensures
            final(self).wf(),
            ({
                let rem = old(self).remaining();
                match parse_scalar(rem, Type::Bool) {
                    Parsed::Found(raw, n) => r matches Ok(x) && x == (raw == 1) && final(self).remaining() == rem.skip(n as int),
                    Parsed::Fail(kind) => r matches Err(e) && e.spec_kind() == kind,
                    Parsed::Short => false,
                }
            }),
    {
        match self.parse_element(Type::Bool) {
            Ok(raw) => Ok(raw == 1),
            Err(e) => Err(e),
        }
    }

    /// Consume one 8-bit unsigned scalar.
    pub fn decode_u8(&mut self) -> (r: Result<u8, Error>)
        requires
            old(self).wf(),
        ensures
            final(self).wf(),
            ({
                let rem = old(self).remaining();
                match parse_scalar(rem, Type::U8) {
                    Parsed::Found(raw, n) => r matches Ok(x) && x as nat == raw && final(self).remaining() == rem.skip(n as int),
                    Parsed::Fail(kind) => r matches Err(e) && e.spec_kind() == kind,
                    Parsed::Short => false,
                }
            }),
    {
        proof {
            lemma_pow256_values();
            lemma_be_value_bound(old(self).remaining().subrange(1, 2));
        }
        match self.parse_element(Type::U8) {
            Ok(raw) => Ok(raw as u8),
            Err(e) => Err(e),
        }
    }

    /// Consume one 16-bit unsigned scalar.
    pub fn decode_u16(&mut self) -> (r: Result<u16, Error>)
        requires
            old(self).wf(),
        ensures
            final(self).wf(),
            ({
                let rem = old(self).remaining();
                match parse_scalar(rem, Type::U16) {
                    Parsed::Found(raw, n) => r matches Ok(x) && x as nat == raw && final(self).remaining() == rem.skip(n as int),
                    Parsed::Fail(kind) => r matches Err(e) && e.spec_kind() == kind,
                    Parsed::Short => false,
                }
            }),
    {
        proof {
            lemma_pow256_values();
            lemma_be_value_bound(old(self).remaining().subrange(1, 3));
        }
        match self.parse_element(Type::U16) {
            Ok(raw) => Ok(raw as u16),
            Err(e) => Err(e),
        }
    }

    /// Consume one 32-bit unsigned scalar.
    pub fn decode_u32(&mut self) -> (r: Result<u32, Error>)
        requires
            old(self).wf(),
        ensures
            final(self).wf(),
            ({
                let rem = old(self).remaining();
                match parse_scalar(rem, Type::U32) {
                    Parsed::Found(raw, n) => r matches Ok(x) && x as nat == raw && final(self).remaining() == rem.skip(n as int),
                    Parsed::Fail(kind) => r matches Err(e) && e.spec_kind() == kind,
                    Parsed::Short => false,
                }
            }),
    {
        proof {
            lemma_pow256_values();
            lemma_be_value_bound(old(self).remaining().subrange(1, 5));
        }
        match self.parse_element(Type::U32) {
            Ok(raw) => Ok(raw as u32),
            Err(e) => Err(e),
        }
    }

    /// Consume one 64-bit unsigned scalar.
    pub fn decode_u64(&mut self) -> (r: Result<u64, Error>)
        requires
            old(self).wf(),
        ensures
            final(self).wf(),
            ({
                let rem = old(self).remaining();
                match parse_scalar(rem, Type::U64) {
                    Parsed::Found(raw, n) => r matches Ok(x) && x as nat == raw && final(self).remaining() == rem.skip(n as int),
                    Parsed::Fail(kind) => r matches Err(e) && e.spec_kind() == kind,
                    Parsed::Short => false,
                }
            }),
    {
        self.parse_element(Type::U64)
    }

    /// Consume one 8-bit signed scalar.
    pub fn decode_i8(&mut self) -> (r: Result<i8, Error>)
        requires
            old(self).wf(),
        ensures
            final(self).wf(),
            ({
                let rem = old(self).remaining();
                match parse_scalar(rem, Type::I8) {
                    Parsed::Found(raw, n) => r matches Ok(x) && x == (raw as u8) as i8 && final(self).remaining() == rem.skip(n as int),
                    Parsed::Fail(kind) => r matches Err(e) && e.spec_kind() == kind,
                    Parsed::Short => false,
                }
            }),
    {
        proof {
            lemma_pow256_values();
            lemma_be_value_bound(old(self).remaining().subrange(1, 2));
        }
        match self.parse_element(Type::I8) {
            Ok(raw) => Ok((raw as u8) as i8),
            Err(e) => Err(e),
        }
    }

    /// Consume one 16-bit signed scalar.
    pub fn decode_i16(&mut self) -> (r: Result<i16, Error>)
        requires
            old(self).wf(),
        ensures
            final(self).wf(),
            ({
                let rem = old(self).remaining();
                match parse_scalar(rem, Type::I16) {
                    Parsed::Found(raw, n) => r matches Ok(x) && x == (raw as u16) as i16 && final(self).remaining() == rem.skip(n as int),
                    Parsed::Fail(kind) => r matches Err(e) && e.spec_kind() == kind,
                    Parsed::Short => false,
                }
            }),
    {
        proof {
            lemma_pow256_values();
            lemma_be_value_bound(old(self).remaining().subrange(1, 3));
        }
        match self.parse_element(Type::I16) {
            Ok(raw) => Ok((raw as u16) as i16),
            Err(e) => Err(e),
        }
    }

    /// Consume one 32-bit signed scalar.
    pub fn decode_i32(&mut self) -> (r: Result<i32, Error>)
        requires
            old(self).wf(),
        ensures
            final(self).wf(),
            ({
                let rem = old(self).remaining();
                match parse_scalar(rem, Type::I32) {
                    Parsed::Found(raw, n) => r matches Ok(x) && x == (raw as u32) as i32 && final(self).remaining() == rem.skip(n as int),
                    Parsed::Fail(kind) => r matches Err(e) && e.spec_kind() == kind,
                    Parsed::Short => false,
                }
            }),
    {
        proof {
            lemma_pow256_values();
            lemma_be_value_bound(old(self).remaining().subrange(1, 5));
        }
        match self.parse_element(Type::I32) {
            Ok(raw) => Ok((raw as u32) as i32),
            Err(e) => Err(e),
        }
    }

    /// Consume one 64-bit signed scalar.
    pub fn decode_i64(&mut self) -> (r: Result<i64, Error>)
        requires
            old(self).wf(),
        ensures
            final(self).wf(),
            ({
                let rem = old(self).remaining();
                match parse_scalar(rem, Type::I64) {
                    Parsed::Found(raw, n) => r matches Ok(x) && x == (raw as u64) as i64 && final(self).remaining() == rem.skip(n as int),
                    Parsed::Fail(kind) => r matches Err(e) && e.spec_kind() == kind,
                    Parsed::Short => false,
                }
            }),
    {
        match self.parse_element(Type::I64) {
            Ok(raw) => Ok(raw as i64),
            Err(e) => Err(e),
        }
    }

    /// Consume one 32-bit float scalar, returned as its IEEE 754 bit
    /// pattern.
    pub fn decode_f32_bits(&mut self) -> (r: Result<u32, Error>)
        requires
            old(self).wf(),
        ensures
            final(self).wf(),
            ({
                let rem = old(self).remaining();
                match parse_scalar(rem, Type::F32) {
                    Parsed::Found(raw, n) => r matches Ok(x) && x as nat == raw && final(self).remaining() == rem.skip(n as int),
                    Parsed::Fail(kind) => r matches Err(e) && e.spec_kind() == kind,
                    Parsed::Short => false,
                }
            }),
    {
        proof {
            lemma_pow256_values();
            lemma_be_value_bound(old(self).remaining().subrange(1, 5));
        }
        match self.parse_element(Type::F32) {
            Ok(raw) => Ok(raw as u32),
            Err(e) => Err(e),
        }
    }

    /// Consume one 64-bit float scalar, returned as its IEEE 754 bit
    /// pattern.
    pub fn decode_f64_bits(&mut self) -> (r: Result<u64, Error>)
        requires
            old(self).wf(),
        ensures
            final(self).wf(),
            ({
                let rem = old(self).remaining();
                match parse_scalar(rem, Type::F64) {
                    Parsed::Found(raw, n) => r matches Ok(x) && x as nat == raw && final(self).remaining() == rem.skip(n as int),
                    Parsed::Fail(kind) => r matches Err(e) && e.spec_kind() == kind,
                    Parsed::Short => false,
                }
            }),
    {
        self.parse_element(Type::F64)
    }

    /// Scan to the first unescaped end delimiter, refilling as needed,
    /// and return the content with its escapes removed, consuming the
    /// end delimiter too.
    #[verifier::rlimit(50)]
    fn read_region(&mut self, end: u8) -> (r: Result<Vec<u8>, Error>)
        requires
            old(self).wf(),
        ensures
            final(self).wf(),
            ({
                let s = old(self).remaining();
                &&& (r is Ok <==> scan_to_end(s, end) is Some)
                &&& (match r {
                    Ok(content) => match scan_to_end(s, end) {
                        Some(i) => content@ == unescape(s.take(i as int)) && final(self).remaining() == s.skip(i as int + 1),
                        None => false,
                    },
                    Err(e) => e.spec_kind() == ErrorKind::UnexpectedEnd && final(self).remaining()
                        == s,
                })
            }),
    {
        let ghost s = old(self).remaining();
        let mut i: usize = 0;
        proof {
            assert(s.skip(0) =~= s);
        }
        loop
            invariant
                s == old(self).remaining(),
                self.wf(),
                self.remaining() == s,
                i <= s.len(),
                match scan_to_end(s.skip(i as int), end) {
                    Some(k) => scan_to_end(s, end) == Some((i + k) as nat),
                    None => scan_to_end(s, end) is None,
                },
            ensures
                self.wf(),
                self.remaining() == s,
                i < self.buffered().len(),
                self.buffered()[i as int] == end,
                scan_to_end(s, end) == Some(i as nat),
            decreases s.len() - i,
        {
            self.fetch_past(i);
            proof {
                self.lemma_buffer_prefix();
            }
            if self.buffer.len() <= i {
                proof {
                    assert(s.skip(i as int).len() == 0);
                    assert(scan_to_end(s.skip(i as int), end) is None);
                }
                return Err(Error::unexpected_end());
            }
            let b = self.buffer[i];
            proof {
                assert(s[i as int] == b);
                assert(s.skip(i as int)[0] == b);
            }
            if b == end {
                proof {
                    assert(scan_to_end(s.skip(i as int), end) == Some(0nat));
                }
                break ;
            }
            if b == ESCAPE {
                self.fetch_past(i + 1);
                proof {
                    self.lemma_buffer_prefix();
                }
                if self.buffer.len() <= i + 1 {
                    proof {
                        assert(s.skip(i as int).len() == 1);
                        assert(scan_to_end(s.skip(i as int), end) is None);
                    }
                    return Err(Error::unexpected_end());
                }
                proof {
                    assert(s.skip(i as int).skip(2) =~= s.skip(i + 2));
                    assert(s.skip(i as int).len() >= 2);
                }
                i = i + 2;
            } else {
                proof {
                    assert(s.skip(i as int).skip(1) =~= s.skip(i + 1));
                }
                i = i + 1;
            }
        }
        let blen = self.buffer.len();
        proof {
            assert(i < blen);
        }
        let content = unescape_prefix(&self.buffer, i);
        proof {
            self.lemma_buffer_prefix();
            assert(self.buffered().take(i as int) =~= s.take(i as int));
        }
        self.consume(i + 1);
        proof {
            assert(s.skip(i as int).skip(1) =~= s.skip(i + 1));
            assert(self.remaining() =~= s.skip(i + 1));
        }
        Ok(content)
    }

    /// Scan a delimited region: consume the begin delimiter, scan to
    /// the first unescaped end delimiter, refilling as needed, and
    /// return the content with its escapes removed, consuming the end
    /// delimiter too.
    pub fn buffer_string(&mut self, begin: u8, end: u8) -> (r: Result<Vec<u8>, Error>)
        requires
            old(self).wf(),
        ensures
            final(self).wf(),
            ({
                let rem = old(self).remaining();
                &&& (r is Ok <==> rem.len() > 0 && rem[0] == begin && scan_to_end(rem.skip(1), end)
                    is Some)
                &&& (match r {
                    Ok(content) => match scan_to_end(rem.skip(1), end) {
                        Some(i) => content@ == unescape(rem.skip(1).take(i as int)) && final(self).remaining() == rem.skip(1).skip(i as int + 1),
                        None => false,
                    },
                    Err(e) => {
                        &&& e.spec_kind() == (if rem.len() == 0 || rem[0] == begin {
                            ErrorKind::UnexpectedEnd
                        } else {
                            ErrorKind::UnexpectedDelimiter
                        })
                        &&& (rem.len() > 0 && rem[0] == begin ==> final(self).remaining()
                            == rem.skip(1))
                        &&& (!(rem.len() > 0 && rem[0] == begin) ==> final(self).remaining() == rem)
                    },
                })
            }),
    {
        match self.expect_delimiter(begin) {
            Ok(()) => (),
            Err(e) => {
                return Err(e);
            },
        }
        self.read_region(end)
    }

    /// Scan to the first unescaped end delimiter as `read_region`
    /// does, discarding the content and periodically compacting the
    /// buffer, so that an arbitrarily long skipped region needs only
    /// bounded memory.
    #[verifier::rlimit(50)]
    fn skip_region(&mut self, end: u8) -> (r: Result<(), Error>)
        requires
            old(self).wf(),
        ensures
            final(self).wf(),
            ({
                let s = old(self).remaining();
                &&& (r is Ok <==> scan_to_end(s, end) is Some)
                &&& (r is Ok ==> match scan_to_end(s, end) {
                    Some(i) => final(self).remaining() == s.skip(i as int + 1),
                    None => false,
                })
                &&& (r matches Err(e) ==> e.spec_kind() == ErrorKind::UnexpectedEnd)
            }),
    {
        let ghost s = old(self).remaining();
        let mut i: usize = 0;
        let ghost mut done: nat = 0;
        proof {
            assert(s.skip(0) =~= s);
        }
        loop
            invariant
                s == old(self).remaining(),
                self.wf(),
                self.remaining() == s.skip(done as int),
                done + i <= s.len(),
                i <= self.remaining().len(),
                match scan_to_end(s.skip(done + i), end) {
                    Some(k) => scan_to_end(s, end) == Some((done + i + k) as nat),
                    None => scan_to_end(s, end) is None,
                },
            ensures
                self.wf(),
                i < self.buffered().len(),
                self.buffered()[i as int] == end,
                self.remaining() == s.skip(done as int),
                done + i <= s.len(),
                scan_to_end(s, end) == Some((done + i) as nat),
            decreases s.len() - done - i,
        {
            self.fetch_past(i);
            proof {
                self.lemma_buffer_prefix();
            }
            if self.buffer.len() <= i {
                proof {
                    assert(s.skip(done + i).len() == 0);
                    assert(scan_to_end(s.skip(done + i), end) is None);
                }
                return Err(Error::unexpected_end());
            }
            let b = self.buffer[i];
            proof {
                assert(self.remaining()[i as int] == b);
                assert(s.skip(done + i)[0] == b);
            }
            if b == end {
                proof {
                    assert(scan_to_end(s.skip(done + i), end) == Some(0nat));
                }
                break ;
            }
            if b == ESCAPE {
                self.fetch_past(i + 1);
                proof {
                    self.lemma_buffer_prefix();
                }
                if self.buffer.len() <= i + 1 {
                    proof {
                        assert(s.skip(done + i).len() == 1);
                        assert(scan_to_end(s.skip(done + i), end) is None);
                    }
                    return Err(Error::unexpected_end());
                }
                proof {
                    assert(s.skip(done + i).skip(2) =~= s.skip(done + i + 2));
                    assert(s.skip(done + i).len() >= 2);
                }
                i = i + 2;
            } else {
                proof {
                    assert(s.skip(done + i).skip(1) =~= s.skip(done + i + 1));
                }
                i = i + 1;
            }
            if i > CHUNK_SIZE {
                self.consume(i);
                proof {
                    assert(s.skip(done as int).skip(i as int) =~= s.skip(done + i));
                    done = done + i as nat;
                }
                i = 0;
            }
        }
        let blen = self.buffer.len();
        proof {
            assert(i < blen);
        }
        self.consume(i + 1);
        proof {
            assert(s.skip(done as int).skip(i + 1) =~= s.skip(done + i + 1));
        }
        Ok(())
    }

    /// Scan a delimited region as `buffer_string` does, discarding the
    /// content and periodically compacting the buffer, so that an
    /// arbitrarily long skipped region needs only bounded memory.
    pub fn ignore_string(&mut self, begin: u8, end: u8) -> (r: Result<(), Error>)
        requires
            old(self).wf(),
        ensures
            final(self).wf(),
            ({
                let rem = old(self).remaining();
                &&& (r is Ok <==> rem.len() > 0 && rem[0] == begin && scan_to_end(rem.skip(1), end)
                    is Some)
                &&& (r is Ok ==> match scan_to_end(rem.skip(1), end) {
                    Some(i) => final(self).remaining() == rem.skip(1).skip(i as int + 1),
                    None => false,
                })
                &&& (r matches Err(e) ==> e.spec_kind() == (if rem.len() == 0 || rem[0] == begin {
                    ErrorKind::UnexpectedEnd
                } else {
                    ErrorKind::UnexpectedDelimiter
                }))
                &&& (!(rem.len() > 0 && rem[0] == begin) && r is Err ==> final(self).remaining()
                    == rem)
            }),
    {
        match self.expect_delimiter(begin) {
            Ok(()) => (),
            Err(e) => {
                return Err(e);
            },
        }
        self.skip_region(end)
    }

    /// Scan forward over escaped bulk-array content for up to `max`
    /// elements of `width` bytes each, refilling as needed, stopping at
    /// an unescaped array delimiter or when the element budget is
    /// spent.  The scanned span is unescaped, split into fixed-width
    /// runs, and each run returned as its unsigned reading, together
    /// with whether the closing delimiter was consumed.
    #[verifier::rlimit(80)]
    fn fill_raw(&mut self, width: usize, max: usize) -> (r: Result<(Vec<u64>, bool), Error>)
        requires
            old(self).wf(),
            1 <= width <= 8,
            max * width <= usize::MAX,
        ensures
            final(self).wf(),
            ({
                let rem = old(self).remaining();
                let budget = (max * width) as nat;
                match scan_bulk(rem, budget) {
                    Option::None => r matches Err(e) && e.spec_kind() == ErrorKind::UnexpectedEnd,
                    Option::Some(i) => {
                        let content = unescape(rem.take(i as int));
                        if content.len() % (width as nat) != 0 {
                            r matches Err(e) && e.spec_kind() == ErrorKind::InvalidLength
                        } else if rem.skip(i as int).len() == 0 {
                            r matches Err(e) && e.spec_kind() == ErrorKind::UnexpectedEnd
                        } else {
                            r matches Ok(p) && {
                                &&& p.0@.map_values(|x: u64| x as nat) == be_chunks(
                                    content,
                                    width as nat,
                                )
                                &&& p.1 == (rem.skip(i as int)[0] == ARRAY_DELIMIT)
                                &&& final(self).remaining() == (if p.1 {
                                    rem.skip(i as int + 1)
                                } else {
                                    rem.skip(i as int)
                                })
                            }
                        }
                    },
                }
            }),
    {
        let ghost rem = old(self).remaining();
        let budget_total = max * width;
        let ghost budget = budget_total as nat;
        let mut bud: usize = budget_total;
        let mut i: usize = 0;
        proof {
            assert(rem.skip(0) =~= rem);
            assert(rem.take(0) =~= Seq::<u8>::empty());
            assert(unescape(Seq::<u8>::empty()) == Seq::<u8>::empty());
            assert(esc_clean(Seq::<u8>::empty()));
        }
        loop
            invariant
                rem == old(self).remaining(),
                budget_total == max * width,
                budget == budget_total as nat,
                self.wf(),
                self.remaining() == rem,
                i <= rem.len(),
                i <= self.buffered().len(),
                bud <= budget_total,
                esc_clean(rem.take(i as int)),
                unescape(rem.take(i as int)).len() == budget_total - bud,
                match scan_bulk(rem.skip(i as int), bud as nat) {
                    Option::Some(k) => scan_bulk(rem, budget) == Some((i + k) as nat),
                    Option::None => scan_bulk(rem, budget) is None,
                },
            ensures
                self.wf(),
                self.remaining() == rem,
                i <= self.buffered().len(),
                i <= rem.len(),
                esc_clean(rem.take(i as int)),
                scan_bulk(rem, budget) == Some(i as nat),
            decreases bud,
        {
            if bud == 0 {
                proof {
                    assert(scan_bulk(rem.skip(i as int), 0) == Some(0nat));
                }
                break ;
            }
            self.fetch_past(i);
            proof {
                self.lemma_buffer_prefix();
            }
            if self.buffer.len() <= i {
                proof {
                    assert(rem.skip(i as int).len() == 0);
                    assert(scan_bulk(rem.skip(i as int), bud as nat) is None);
                }
                return Err(Error::unexpected_end());
            }
            let b = self.buffer[i];
            proof {
                assert(rem[i as int] == b);
                assert(rem.skip(i as int)[0] == b);
            }
            if b == ARRAY_DELIMIT {
                proof {
                    assert(scan_bulk(rem.skip(i as int), bud as nat) == Some(0nat));
                }
                break ;
            }
            if b == ESCAPE {
                self.fetch_past(i + 1);
                proof {
                    self.lemma_buffer_prefix();
                }
                if self.buffer.len() <= i + 1 {
                    proof {
                        assert(rem.skip(i as int).len() == 1);
                        assert(scan_bulk(rem.skip(i as int), bud as nat) is None);
                    }
                    return Err(Error::unexpected_end());
                }
                proof {
                    assert(rem.skip(i as int).skip(2) =~= rem.skip(i as int + 2));
                    assert(rem.skip(i as int).len() >= 2);
                    let unit = seq![ESCAPE, rem[i as int + 1]];
                    assert(rem.take(i as int + 2) =~= rem.take(i as int) + unit);
                    assert(unit.skip(2) =~= Seq::<u8>::empty());
                    assert(esc_clean(Seq::<u8>::empty()));
                    assert(unescape(Seq::<u8>::empty()) == Seq::<u8>::empty());
                    assert(esc_clean(unit));
                    lemma_esc_clean_append(rem.take(i as int), unit);
                    lemma_unescape_append_clean(rem.take(i as int), unit);
                    assert(unescape(unit) =~= seq![rem[i as int + 1]]);
                }
                i = i + 2;
                bud = bud - 1;
            } else {
                proof {
                    assert(rem.skip(i as int).skip(1) =~= rem.skip(i as int + 1));
                    let unit = seq![b];
                    assert(rem.take(i as int + 1) =~= rem.take(i as int) + unit);
                    assert(unit.skip(1) =~= Seq::<u8>::empty());
                    assert(esc_clean(Seq::<u8>::empty()));
                    assert(unescape(Seq::<u8>::empty()) == Seq::<u8>::empty());
                    assert(esc_clean(unit));
                    lemma_esc_clean_append(rem.take(i as int), unit);
                    lemma_unescape_append_clean(rem.take(i as int), unit);
                    assert(unescape(unit) =~= seq![b]);
                }
                i = i + 1;
                bud = bud - 1;
            }
        }
        let ghost scan_len = i as nat;
        let content = unescape_prefix(&self.buffer, i);
        proof {
            self.lemma_buffer_prefix();
            assert(self.buffered().take(i as int) =~= rem.take(i as int));
        }
        self.consume(i);
        let vals = match decode_elems(&content, width) {
            Ok(vals) => vals,
            Err(e) => {
                return Err(e);
            },
        };
        self.fetch_past(0);
        proof {
            self.lemma_buffer_prefix();
        }
        if self.buffer.len() == 0 {
            proof {
                assert(rem.skip(scan_len as int).len() == 0);
            }
            return Err(Error::unexpected_end());
        }
        let done = self.buffer[0] == ARRAY_DELIMIT;
        if done {
            self.consume(1);
            proof {
                assert(rem.skip(scan_len as int).skip(1) =~= rem.skip(scan_len as int + 1));
            }
        }
        Ok((vals, done))
    }

    fn unknown_tag(&self, actual: u8) -> (e: Error)
        ensures
            e.spec_kind() == ErrorKind::UnknownTypeTag,
    {
        let mut message = String::new();
        message.push_str("invalid type tag ");
        push_byte_label(&mut message, actual);
        Error { kind: ErrorKind::UnknownTypeTag, message }
    }

    /// Decode one value of any shape: refill until the leading byte is
    /// available, dispatch on it, and route to the matching scalar,
    /// string, bulk-array, list or map path.
    #[verifier::rlimit(100)]
    pub fn decode_value(&mut self) -> (r: Result<Value, Error>)
        requires
            old(self).wf(),
        ensures
            final(self).wf(),
            ({
                let rem = old(self).remaining();
                match parse_value(rem) {
                    Parsed::Found(v, n) => r matches Ok(val) && val@ == v && final(self).remaining() == rem.skip(n as int),
                    Parsed::Short => r matches Err(e) && e.spec_kind() == ErrorKind::UnexpectedEnd,
                    Parsed::Fail(k) => r matches Err(e) && e.spec_kind() == k,
                }
            }),
        decreases old(self).remaining().len(),
    {
        let ghost rem = old(self).remaining();
        self.fetch_past(0);
        proof {
            self.lemma_buffer_prefix();
        }
        if self.buffer.len() == 0 {
            return Err(Error::unexpected_end());
        }
        let b = self.buffer[0];
        proof {
            assert(rem[0] == b);
        }
        if b == ARRAY_DELIMIT {
            self.fetch_past(1);
            proof {
                self.lemma_buffer_prefix();
            }
            if self.buffer.len() <= 1 {
                proof {
                    assert(rem.len() == 1);
                }
                return Err(Error::unexpected_end());
            }
            let tag = self.buffer[1];
            proof {
                assert(rem[1] == tag);
            }
            let k = match Type::lookup_tag(tag) {
                None => {
                    return Err(self.unknown_tag(tag));
                },
                Some(k) => k,
            };
            if k == Type::Nil {
                let mut message = String::new();
                message.push_str("a bulk array cannot hold the none sentinel");
                return Err(Error { kind: ErrorKind::InvalidValue, message });
            }
            self.consume(2);
            let ghost body = rem.skip(2);
            let content = match self.read_region(ARRAY_DELIMIT) {
                Ok(c) => c,
                Err(e) => {
                    return Err(e);
                },
            };
            let ghost i = scan_to_end(body, ARRAY_DELIMIT)->Some_0;
            let w = k.byte_width();
            let vals = match decode_elems(&content, w) {
                Ok(v) => v,
                Err(e) => {
                    return Err(e);
                },
            };
            match array_value(k, vals) {
                Ok(val) => {
                    proof {
                        lemma_scan_bound(body, ARRAY_DELIMIT);
                        assert(body.skip(i as int + 1) =~= rem.skip((i + 1 + 2) as int));
                    }
                    Ok(val)
                },
                Err(e) => Err(e),
            }
        } else if b == LIST_BEGIN {
            self.consume(1);
            let ghost tail0 = rem.skip(1);
            let mut items: Vec<Value> = Vec::new();
            let ghost mut c: nat = 0;
            proof {
                assert(tail0.skip(0) =~= tail0);
                assert(view_items(items@) =~= Seq::<SpecValue>::empty());
            }
            loop
                invariant
                    self.wf(),
                    rem == old(self).remaining(),
                    rem.len() > 0,
                    rem[0] == LIST_BEGIN,
                    tail0 == rem.skip(1),
                    c <= tail0.len(),
                    self.remaining() == tail0.skip(c as int),
                    match parse_list_tail(tail0.skip(c as int)) {
                        Parsed::Found(tl, m) => parse_list_tail(tail0) == Parsed::Found(
                            view_items(items@) + tl,
                            (c + m) as nat,
                        ),
                        Parsed::Short => parse_list_tail(tail0) is Short,
                        Parsed::Fail(e) => parse_list_tail(tail0) == Parsed::<Seq<SpecValue>>::Fail(
                            e,
                        ),
                    },
                decreases tail0.len() - c,
            {
                let ghost cur = self.remaining();
                let fin = match self.maybe_delimiter(LIST_END) {
                    Ok(f) => f,
                    Err(e) => {
                        proof {
                            assert(false);
                        }
                        return Err(e);
                    },
                };
                if fin {
                    proof {
                        assert(parse_list_tail(cur) == Parsed::Found(
                            Seq::<SpecValue>::empty(),
                            1nat,
                        ));
                        assert(view_items(items@) + Seq::<SpecValue>::empty() =~= view_items(
                            items@,
                        ));
                        assert(tail0.skip(c as int).skip(1) =~= tail0.skip(c as int + 1));
                        assert(rem.skip(1).skip(c as int + 1) =~= rem.skip((1 + (c + 1)) as int));
                    }
                    return Ok(Value::List(items));
                }
                let v = match self.decode_value() {
                    Ok(v) => v,
                    Err(e) => {
                        return Err(e);
                    },
                };
                let ghost n = match parse_value(cur) {
                    Parsed::Found(pv, pn) => pn,
                    _ => 0nat,
                };
                let ghost items0 = items@;
                items.push(v);
                proof {
                    lemma_parse_value_bounds(cur);
                    lemma_view_items_push(items0, v);
                    assert(tail0.skip(c as int).skip(n as int) =~= tail0.skip((c + n) as int));
                    match parse_list_tail(tail0.skip((c + n) as int)) {
                        Parsed::Found(tl2, m2) => {
                            assert(parse_list_tail(cur) == Parsed::Found(
                                seq![v@] + tl2,
                                (n + m2) as nat,
                            ));
                            assert(view_items(items0) + (seq![v@] + tl2) =~= view_items(
                                items0.push(v),
                            ) + tl2);
                            assert(parse_list_tail(tail0) == Parsed::Found(
                                view_items(items0.push(v)) + tl2,
                                ((c + n) + m2) as nat,
                            ));
                        },
                        Parsed::Short => {},
                        Parsed::Fail(e2) => {},
                    }
                    c = c + n;
                }
            }
        } else if b == MAP_BEGIN {
            self.consume(1);
            let ghost tail0 = rem.skip(1);
            let mut entries: Vec<(Value, Value)> = Vec::new();
            let ghost mut c: nat = 0;
            proof {
                assert(tail0.skip(0) =~= tail0);
                assert(view_entries(entries@) =~= Seq::<(SpecValue, SpecValue)>::empty());
            }
            loop
                invariant
                    self.wf(),
                    rem == old(self).remaining(),
                    rem.len() > 0,
                    rem[0] == MAP_BEGIN,
                    tail0 == rem.skip(1),
                    c <= tail0.len(),
                    self.remaining() == tail0.skip(c as int),
                    match parse_map_tail(tail0.skip(c as int)) {
                        Parsed::Found(tl, m) => parse_map_tail(tail0) == Parsed::Found(
                            view_entries(entries@) + tl,
                            (c + m) as nat,
                        ),
                        Parsed::Short => parse_map_tail(tail0) is Short,
                        Parsed::Fail(e) => parse_map_tail(tail0) == Parsed::<
                            Seq<(SpecValue, SpecValue)>,
                        >::Fail(e),
                    },
                decreases tail0.len() - c,
            {
                let ghost cur = self.remaining();
                let fin = match self.maybe_delimiter(MAP_END) {
                    Ok(f) => f,
                    Err(e) => {
                        proof {
                            assert(false);
                        }
                        return Err(e);
                    },
                };
                if fin {
                    proof {
                        assert(parse_map_tail(cur) == Parsed::Found(
                            Seq::<(SpecValue, SpecValue)>::empty(),
                            1nat,
                        ));
                        assert(view_entries(entries@) + Seq::<(SpecValue, SpecValue)>::empty()
                            =~= view_entries(entries@));
                        assert(tail0.skip(c as int).skip(1) =~= tail0.skip(c as int + 1));
                        assert(rem.skip(1).skip(c as int + 1) =~= rem.skip((1 + (c + 1)) as int));
                    }
                    return Ok(Value::Dict(entries));
                }
                let key = match self.decode_value() {
                    Ok(v) => v,
                    Err(e) => {
                        return Err(e);
                    },
                };
                let ghost n = match parse_value(cur) {
                    Parsed::Found(pv, pn) => pn,
                    _ => 0nat,
                };
                proof {
                    lemma_parse_value_bounds(cur);
                    assert(tail0.skip(c as int).skip(n as int) =~= tail0.skip((c + n) as int));
                }
                let ghost cur2 = self.remaining();
                let val = match self.decode_value() {
                    Ok(v) => v,
                    Err(e) => {
                        proof {
                            assert(cur2 == cur.skip(n as int));
                        }
                        return Err(e);
                    },
                };
                let ghost m = match parse_value(cur2) {
                    Parsed::Found(pv, pn) => pn,
                    _ => 0nat,
                };
                let ghost entries0 = entries@;
                entries.push((key, val));
                proof {
                    lemma_parse_value_bounds(cur2);
                    lemma_view_entries_push(entries0, (key, val));
                    assert(cur2 == tail0.skip((c + n) as int));
                    assert(n <= cur.len());
                    assert(m <= cur2.len());
                    assert(c + n + m <= tail0.len());
                    assert(tail0.skip((c + n) as int).skip(m as int) =~= tail0.skip(
                        (c + n + m) as int,
                    ));
                    assert(cur2.skip(m as int) =~= tail0.skip((c + n + m) as int));
                    assert(cur2 == cur.skip(n as int));
                    assert(cur.len() > 0);
                    assert(cur[0] != MAP_END);
                    assert(m <= cur.len() - n);
                    assert(cur.skip(n as int).skip(m as int) =~= cur.skip((n + m) as int));
                    assert(cur.skip((n + m) as int) =~= tail0.skip((c + n + m) as int));
                    match parse_map_tail(tail0.skip((c + n + m) as int)) {
                        Parsed::Found(tl2, l2) => {
                            assert(parse_map_tail(cur) == Parsed::Found(
                                seq![(key@, val@)] + tl2,
                                (n + m + l2) as nat,
                            ));
                            assert(view_entries(entries0) + (seq![(key@, val@)] + tl2)
                                =~= view_entries(entries0.push((key, val))) + tl2);
                            assert(parse_map_tail(tail0) == Parsed::Found(
                                view_entries(entries0.push((key, val))) + tl2,
                                ((c + n + m) + l2) as nat,
                            ));
                        },
                        Parsed::Short => {},
                        Parsed::Fail(e2) => {},
                    }
                    c = c + n + m;
                }
            }
        } else if b == STRING_DELIMIT {
            match self.decode_text() {
                Ok(bytes) => {
                    proof {
                        let i = scan_to_end(rem.skip(1), STRING_DELIMIT)->Some_0;
                        lemma_scan_bound(rem.skip(1), STRING_DELIMIT);
                        assert(rem.skip(1).skip(i as int + 1) =~= rem.skip((1 + i + 1) as int));
                    }
                    Ok(Value::Text(bytes))
                },
                Err(e) => Err(e),
            }
        } else {
            let k = match Type::lookup_tag(b) {
                None => {
                    return Err(self.unknown_tag(b));
                },
                Some(k) => k,
            };
            if k == Type::Nil {
                match self.parse_unit() {
                    Ok(()) => Ok(Value::Nil),
                    Err(e) => {
                        proof {
                            assert(false);
                        }
                        Err(e)
                    },
                }
            } else {
                match self.parse_element(k) {
                    Ok(raw) => Ok(scalar_value(k, raw)),
                    Err(e) => Err(e),
                }
            }
        }
    }

    /// Walk one value structurally and discard it, reusing the skip
    /// paths for strings and bulk arrays and the scalar widths for
    /// scalars, without materializing anything.  An already exhausted
    /// source is accepted and nothing is consumed.
    #[verifier::rlimit(100)]
    pub fn ignore_value(&mut self) -> (r: Result<(), Error>)
        requires
            old(self).wf(),
        ensures
            final(self).wf(),
            ({
                let rem = old(self).remaining();
                if rem.len() == 0 {
                    r is Ok && final(self).remaining() == rem
                } else {
                    match skip_value(rem) {
                        Parsed::Found(u, n) => r is Ok && final(self).remaining() == rem.skip(
                            n as int,
                        ),
                        Parsed::Short => r matches Err(e) && e.spec_kind()
                            == ErrorKind::UnexpectedEnd,
                        Parsed::Fail(k) => r matches Err(e) && e.spec_kind() == k,
                    }
                }
            }),
        decreases old(self).remaining().len(),
    {
        let ghost rem = old(self).remaining();
        self.fetch_past(0);
        proof {
            self.lemma_buffer_prefix();
        }
        if self.buffer.len() == 0 {
            return Ok(());
        }
        let b = self.buffer[0];
        proof {
            assert(rem[0] == b);
        }
        if b == ARRAY_DELIMIT {
            self.fetch_past(1);
            proof {
                self.lemma_buffer_prefix();
            }
            if self.buffer.len() <= 1 {
                proof {
                    assert(rem.len() == 1);
                }
                return Err(Error::unexpected_end());
            }
            let tag = self.buffer[1];
            proof {
                assert(rem[1] == tag);
            }
            let k = match Type::lookup_tag(tag) {
                None => {
                    return Err(self.unknown_tag(tag));
                },
                Some(k) => k,
            };
            if k == Type::Nil {
                let mut message = String::new();
                message.push_str("a bulk array cannot hold the none sentinel");
                return Err(Error { kind: ErrorKind::InvalidValue, message });
            }
            self.consume(2);
            let ghost body = rem.skip(2);
            match self.skip_region(ARRAY_DELIMIT) {
                Ok(()) => {
                    proof {
                        let i = scan_to_end(body, ARRAY_DELIMIT)->Some_0;
                        lemma_scan_bound(body, ARRAY_DELIMIT);
                        assert(body.skip(i as int + 1) =~= rem.skip((i + 3) as int));
                    }
                    Ok(())
                },
                Err(e) => Err(e),
            }
        } else if b == LIST_BEGIN {
            self.consume(1);
            let ghost tail0 = rem.skip(1);
            let ghost mut c: nat = 0;
            proof {
                assert(tail0.skip(0) =~= tail0);
            }
            loop
                invariant
                    self.wf(),
                    rem == old(self).remaining(),
                    rem.len() > 0,
                    rem[0] == LIST_BEGIN,
                    tail0 == rem.skip(1),
                    c <= tail0.len(),
                    self.remaining() == tail0.skip(c as int),
                    match skip_list_tail(tail0.skip(c as int)) {
                        Parsed::Found(u, m) => skip_list_tail(tail0) == Parsed::Found(
                            (),
                            (c + m) as nat,
                        ),
                        Parsed::Short => skip_list_tail(tail0) is Short,
                        Parsed::Fail(e) => skip_list_tail(tail0) == Parsed::<()>::Fail(e),
                    },
                decreases tail0.len() - c,
            {
                let ghost cur = self.remaining();
                let fin = match self.maybe_delimiter(LIST_END) {
                    Ok(f) => f,
                    Err(e) => {
                        proof {
                            assert(false);
                        }
                        return Err(e);
                    },
                };
                if fin {
                    proof {
                        assert(skip_list_tail(cur) == Parsed::Found((), 1nat));
                        assert(tail0.skip(c as int).skip(1) =~= tail0.skip(c as int + 1));
                        assert(rem.skip(1).skip(c as int + 1) =~= rem.skip((1 + (c + 1)) as int));
                    }
                    return Ok(());
                }
                self.fetch_past(0);
                proof {
                    self.lemma_buffer_prefix();
                }
                if self.buffer.len() == 0 {
                    proof {
                        assert(cur.len() == 0);
                        assert(skip_list_tail(cur) is Short);
                    }
                    return Err(Error::unexpected_end());
                }
                match self.ignore_value() {
                    Ok(()) => (),
                    Err(e) => {
                        return Err(e);
                    },
                };
                let ghost n = match skip_value(cur) {
                    Parsed::Found(u, pn) => pn,
                    _ => 0nat,
                };
                proof {
                    lemma_skip_value_bounds(cur);
                    assert(tail0.skip(c as int).skip(n as int) =~= tail0.skip((c + n) as int));
                    c = c + n;
                }
            }
        } else if b == MAP_BEGIN {
            self.consume(1);
            let ghost tail0 = rem.skip(1);
            let ghost mut c: nat = 0;
            proof {
                assert(tail0.skip(0) =~= tail0);
            }
            loop
                invariant
                    self.wf(),
                    rem == old(self).remaining(),
                    rem.len() > 0,
                    rem[0] == MAP_BEGIN,
                    tail0 == rem.skip(1),
                    c <= tail0.len(),
                    self.remaining() == tail0.skip(c as int),
                    match skip_map_tail(tail0.skip(c as int)) {
                        Parsed::Found(u, m) => skip_map_tail(tail0) == Parsed::Found(
                            (),
                            (c + m) as nat,
                        ),
                        Parsed::Short => skip_map_tail(tail0) is Short,
                        Parsed::Fail(e) => skip_map_tail(tail0) == Parsed::<()>::Fail(e),
                    },
                decreases tail0.len() - c,
            {
                let ghost cur = self.remaining();
                let fin = match self.maybe_delimiter(MAP_END) {
                    Ok(f) => f,
                    Err(e) => {
                        proof {
                            assert(false);
                        }
                        return Err(e);
                    },
                };
                if fin {
                    proof {
                        assert(skip_map_tail(cur) == Parsed::Found((), 1nat));
                        assert(tail0.skip(c as int).skip(1) =~= tail0.skip(c as int + 1));
                        assert(rem.skip(1).skip(c as int + 1) =~= rem.skip((1 + (c + 1)) as int));
                    }
                    return Ok(());
                }
                self.fetch_past(0);
                proof {
                    self.lemma_buffer_prefix();
                }
                if self.buffer.len() == 0 {
                    proof {
                        assert(cur.len() == 0);
                        assert(skip_map_tail(cur) is Short);
                    }
                    return Err(Error::unexpected_end());
                }
                match self.ignore_value() {
                    Ok(()) => (),
                    Err(e) => {
                        return Err(e);
                    },
                };
                let ghost n = match skip_value(cur) {
                    Parsed::Found(u, pn) => pn,
                    _ => 0nat,
                };
                proof {
                    lemma_skip_value_bounds(cur);
                    assert(tail0.skip(c as int).skip(n as int) =~= tail0.skip((c + n) as int));
                }
                let ghost cur2 = self.remaining();
                self.fetch_past(0);
                proof {
                    self.lemma_buffer_prefix();
                }
                if self.buffer.len() == 0 {
                    proof {
                        assert(cur2 == cur.skip(n as int));
                        assert(cur2.len() == 0);
                        assert(skip_value(cur2) is Short);
                        assert(cur.len() > 0);
                        assert(cur[0] != MAP_END);
                        assert(skip_map_tail(cur) is Short);
                    }
                    return Err(Error::unexpected_end());
                }
                match self.ignore_value() {
                    Ok(()) => (),
                    Err(e) => {
                        proof {
                            assert(cur2 == cur.skip(n as int));
                        }
                        return Err(e);
                    },
                };
                let ghost m = match skip_value(cur2) {
                    Parsed::Found(u, pm) => pm,
                    _ => 0nat,
                };
                proof {
                    lemma_skip_value_bounds(cur2);
                    assert(cur2 == cur.skip(n as int));
                    assert(cur.len() > 0);
                    assert(cur[0] != MAP_END);
                    assert(m <= cur2.len());
                    assert(c + n + m <= tail0.len());
                    assert(tail0.skip((c + n) as int).skip(m as int) =~= tail0.skip(
                        (c + n + m) as int,
                    ));
                    assert(cur2.skip(m as int) =~= tail0.skip((c + n + m) as int));
                    assert(cur.skip(n as int).skip(m as int) =~= cur.skip((n + m) as int));
                    assert(cur.skip((n + m) as int) =~= tail0.skip((c + n + m) as int));
                    c = c + n + m;
                }
            }
        } else if b == STRING_DELIMIT {
            match self.ignore_string(STRING_DELIMIT, STRING_DELIMIT) {
                Ok(()) => {
                    proof {
                        let i = scan_to_end(rem.skip(1), STRING_DELIMIT)->Some_0;
                        lemma_scan_bound(rem.skip(1), STRING_DELIMIT);
                        assert(rem.skip(1).skip(i as int + 1) =~= rem.skip((1 + i + 1) as int));
                    }
                    Ok(())
                },
                Err(e) => Err(e),
            }
        } else {
            let k = match Type::lookup_tag(b) {
                None => {
                    return Err(self.unknown_tag(b));
                },
                Some(k) => k,
            };
            if k == Type::Nil {
                match self.parse_unit() {
                    Ok(()) => Ok(()),
                    Err(e) => {
                        proof {
                            assert(false);
                        }
                        Err(e)
                    },
                }
            } else {
                match self.parse_element(k) {
                    Ok(_) => Ok(()),
                    Err(e) => Err(e),
                }
            }
        }
    }

    /// Peek at the next value: if it is the none sentinel, consume its
    /// tag and report absence; otherwise decode the value that is
    /// present, consuming nothing extra.
    pub fn decode_option(&mut self) -> (r: Result<Option<Value>, Error>)
        requires
            old(self).wf(),
        ensures
            final(self).wf(),
            ({
                let rem = old(self).remaining();
                if rem.len() == 0 {
                    r matches Err(e) && e.spec_kind() == ErrorKind::UnexpectedEnd && final(self).remaining() == rem
                } else if rem[0] == Type::Nil.tag() {
                    r matches Ok(v) && v is None && final(self).remaining() == rem.skip(1)
                } else {
                    match parse_value(rem) {
                        Parsed::Found(v, n) => r matches Ok(o) && o matches Some(val) && val@ == v
                            && final(self).remaining() == rem.skip(n as int),
                        Parsed::Short => r matches Err(e) && e.spec_kind()
                            == ErrorKind::UnexpectedEnd,
                        Parsed::Fail(k) => r matches Err(e) && e.spec_kind() == k,
                    }
                }
            }),
    {
        let ghost rem = old(self).remaining();
        self.fetch_past(0);
        proof {
            self.lemma_buffer_prefix();
        }
        if self.buffer.len() == 0 {
            return Err(Error::unexpected_end());
        }
        if self.buffer[0] == Type::Nil.to_tag() {
            self.consume(1);
            return Ok(None);
        }
        match self.decode_value() {
            Ok(v) => Ok(Some(v)),
            Err(e) => Err(e),
        }
    }

    /// Walk one value and discard it, yielding nothing.
    pub fn decode_ignored_any(&mut self) -> (r: Result<(), Error>)
        requires
            old(self).wf(),
        ensures
            final(self).wf(),
            ({
                let rem = old(self).remaining();
                if rem.len() == 0 {
                    r is Ok && final(self).remaining() == rem
                } else {
                    match skip_value(rem) {
                        Parsed::Found(u, n) => r is Ok && final(self).remaining() == rem.skip(
                            n as int,
                        ),
                        Parsed::Short => r matches Err(e) && e.spec_kind()
                            == ErrorKind::UnexpectedEnd,
                        Parsed::Fail(k) => r matches Err(e) && e.spec_kind() == k,
                    }
                }
            }),
    {
        self.ignore_value()
    }

    /// Consume one string: the string delimiter, escaped content that
    /// must be valid UTF-8, and the string delimiter again.  The
    /// decoded bytes are returned with escapes removed.
    pub fn decode_text(&mut self) -> (r: Result<Vec<u8>, Error>)
        requires
            old(self).wf(),
        ensures
            final(self).wf(),
            ({
                let rem = old(self).remaining();
                &&& (r is Ok <==> rem.len() > 0 && rem[0] == STRING_DELIMIT && match scan_to_end(
                    rem.skip(1),
                    STRING_DELIMIT,
                ) {
                    Some(i) => valid_text(unescape(rem.skip(1).take(i as int))),
                    None => false,
                })
                &&& (match r {
                    Ok(bytes) => match scan_to_end(rem.skip(1), STRING_DELIMIT) {
                        Some(i) => bytes@ == unescape(rem.skip(1).take(i as int)) && final(self).remaining() == rem.skip(1).skip(i as int + 1),
                        None => false,
                    },
                    Err(e) => e.spec_kind() == (if rem.len() == 0 || rem[0] == STRING_DELIMIT {
                        if rem.len() > 0 && scan_to_end(rem.skip(1), STRING_DELIMIT) is Some {
                            ErrorKind::InvalidUtf8
                        } else {
                            ErrorKind::UnexpectedEnd
                        }
                    } else {
                        ErrorKind::UnexpectedDelimiter
                    }),
                })
            }),
    {
        let bytes = match self.buffer_string(STRING_DELIMIT, STRING_DELIMIT) {
            Ok(bytes) => bytes,
            Err(e) => {
                return Err(e);
            },
        };
        if utf8_check(&bytes) {
            Ok(bytes)
        } else {
            let mut message = String::new();
            message.push_str("invalid UTF-8 in string at ");
            let snippet = self.contents(SNIPPET_LEN);
            message.push_str(snippet.as_str());
            Err(Error { kind: ErrorKind::InvalidUtf8, message })
        }
    }
}


impl Decoder {
    /// Open a map: consume the map-begin delimiter and check at once
    /// whether the map is empty.  The access object owns the decoder
    /// until `into_inner` hands it back.
    pub fn begin_map(self) -> (r: Result<MapAccess, Error>)
        requires
            self.wf(),
        ensures
            ({
                let rem = self.remaining();
                &&& (r is Ok <==> rem.len() > 0 && rem[0] == MAP_BEGIN)
                &&& (match r {
                    Ok(a) => {
                        &&& a.wf()
                        &&& !a.value_owed()
                        &&& a.spec_size_hint() is None
                        &&& a.spec_done() == (rem.skip(1).len() > 0 && rem.skip(1)[0] == MAP_END)
                        &&& a.remaining() == (if a.spec_done() {
                            rem.skip(1).skip(1)
                        } else {
                            rem.skip(1)
                        })
                    },
                    Err(e) => e.spec_kind() == (if rem.len() == 0 {
                        ErrorKind::UnexpectedEnd
                    } else {
                        ErrorKind::UnexpectedDelimiter
                    }),
                })
            }),
    {
        let mut de = self;
        match de.expect_delimiter(MAP_BEGIN) {
            Ok(()) => (),
            Err(e) => {
                return Err(e);
            },
        }
        let done = match de.maybe_delimiter(MAP_END) {
            Ok(f) => f,
            Err(e) => {
                proof {
                    assert(false);
                }
                return Err(e);
            },
        };
        Ok(MapAccess { de, done, pending: false, hint: None })
    }

    /// Open a list: consume the list-begin delimiter and check at once
    /// whether the list is empty.
    pub fn begin_seq(self) -> (r: Result<SeqAccess, Error>)
        requires
            self.wf(),
        ensures
            ({
                let rem = self.remaining();
                &&& (r is Ok <==> rem.len() > 0 && rem[0] == LIST_BEGIN)
                &&& (match r {
                    Ok(a) => {
                        &&& a.wf()
                        &&& a.spec_size_hint() is None
                        &&& a.spec_done() == (rem.skip(1).len() > 0 && rem.skip(1)[0] == LIST_END)
                        &&& a.remaining() == (if a.spec_done() {
                            rem.skip(1).skip(1)
                        } else {
                            rem.skip(1)
                        })
                    },
                    Err(e) => e.spec_kind() == (if rem.len() == 0 {
                        ErrorKind::UnexpectedEnd
                    } else {
                        ErrorKind::UnexpectedDelimiter
                    }),
                })
            }),
    {
        let mut de = self;
        match de.expect_delimiter(LIST_BEGIN) {
            Ok(()) => (),
            Err(e) => {
                return Err(e);
            },
        }
        let done = match de.maybe_delimiter(LIST_END) {
            Ok(f) => f,
            Err(e) => {
                proof {
                    assert(false);
                }
                return Err(e);
            },
        };
        Ok(SeqAccess { de, done, hint: None })
    }

    /// Open a fixed-arity tuple: a list whose expected length is known
    /// to the caller and carried as the size hint.
    pub fn begin_tuple(self, len: usize) -> (r: Result<SeqAccess, Error>)
        requires
            self.wf(),
        ensures
            ({
                let rem = self.remaining();
                &&& (r is Ok <==> rem.len() > 0 && rem[0] == LIST_BEGIN)
                &&& (match r {
                    Ok(a) => {
                        &&& a.wf()
                        &&& a.spec_size_hint() == Some(len)
                        &&& a.spec_done() == (rem.skip(1).len() > 0 && rem.skip(1)[0] == LIST_END)
                        &&& a.remaining() == (if a.spec_done() {
                            rem.skip(1).skip(1)
                        } else {
                            rem.skip(1)
                        })
                    },
                    Err(e) => e.spec_kind() == (if rem.len() == 0 {
                        ErrorKind::UnexpectedEnd
                    } else {
                        ErrorKind::UnexpectedDelimiter
                    }),
                })
            }),
    {
        let mut de = self;
        match de.expect_delimiter(LIST_BEGIN) {
            Ok(()) => (),
            Err(e) => {
                return Err(e);
            },
        }
        let done = match de.maybe_delimiter(LIST_END) {
            Ok(f) => f,
            Err(e) => {
                proof {
                    assert(false);
                }
                return Err(e);
            },
        };
        Ok(SeqAccess { de, done, hint: Some(len) })
    }

    /// Open a bulk array of the given element kind: consume the array
    /// delimiter and the element tag, and check at once whether the
    /// array is empty.
    pub fn begin_array(self, etype: Type) -> (r: Result<ArrayAccess, Error>)
        requires
            self.wf(),
            etype != Type::Nil,
        ensures
            ({
                let rem = self.remaining();
                &&& (r is Ok <==> rem.len() >= 2 && rem[0] == ARRAY_DELIMIT && rem[1]
                    == etype.tag())
                &&& (match r {
                    Ok(a) => {
                        &&& a.wf()
                        &&& a.element_kind() == etype
                        &&& a.spec_done() == (rem.skip(2).len() > 0 && rem.skip(2)[0]
                            == ARRAY_DELIMIT)
                        &&& a.remaining() == (if a.spec_done() {
                            rem.skip(2).skip(1)
                        } else {
                            rem.skip(2)
                        })
                    },
                    Err(e) => e.spec_kind() == (if rem.len() == 0 || (rem.len() == 1 && rem[0]
                        == ARRAY_DELIMIT) {
                        ErrorKind::UnexpectedEnd
                    } else {
                        ErrorKind::UnexpectedDelimiter
                    }),
                })
            }),
    {
        let mut de = self;
        match de.expect_delimiter(ARRAY_DELIMIT) {
            Ok(()) => (),
            Err(e) => {
                return Err(e);
            },
        }
        match de.expect_delimiter(etype.to_tag()) {
            Ok(()) => (),
            Err(e) => {
                return Err(e);
            },
        }
        let done = match de.maybe_delimiter(ARRAY_DELIMIT) {
            Ok(f) => f,
            Err(e) => {
                proof {
                    assert(false);
                }
                return Err(e);
            },
        };
        proof {
            assert(self.remaining().skip(1).skip(1) =~= self.remaining().skip(2));
        }
        Ok(ArrayAccess { de, etype, done })
    }
}

/// Incremental access to the entries of a map being decoded.  It owns
/// the decoder for its lifetime; keys and values must be taken in
/// strict alternation, and the decoder is handed back on completion.
pub struct MapAccess {
    de: Decoder,
    done: bool,
    pending: bool,
    hint: Option<usize>,
}

impl MapAccess {
    /// The underlying decoder's bookkeeping is sound.
    pub closed spec fn wf(self) -> bool {
        self.de.wf()
    }

    /// Every byte not yet interpreted.
    pub closed spec fn remaining(self) -> Seq<u8> {
        self.de.remaining()
    }

    /// Whether the map's end delimiter has been consumed.
    pub closed spec fn spec_done(self) -> bool {
        self.done
    }

    /// Whether a key has been returned whose value is still owed.
    pub closed spec fn value_owed(self) -> bool {
        self.pending
    }

    /// The number of entries promised by the caller, if any.
    pub closed spec fn spec_size_hint(self) -> Option<usize> {
        self.hint
    }

    /// The number of entries promised by the caller, if any.
    pub fn size_hint(&self) -> (h: Option<usize>)
        ensures
            h == self.spec_size_hint(),
    {
        self.hint
    }

    /// Whether the map's end delimiter has been consumed.
    pub fn is_complete(&self) -> (b: bool)
        ensures
            b == self.spec_done(),
    {
        self.done
    }

    /// Hand the decoder back.
    pub fn into_inner(self) -> (d: Decoder)
        requires
            self.wf(),
        ensures
            d.wf(),
            d.remaining() == self.remaining(),
    {
        self.de
    }

    /// Decode the next key, or report that the map has ended.  Asking
    /// for a key while its predecessor's value is owed is a misuse
    /// error and changes nothing.
    pub fn next_key(&mut self) -> (r: Result<Option<Value>, Error>)
        requires
            old(self).wf(),
        ensures
            final(self).wf(),
            final(self).spec_size_hint() == old(self).spec_size_hint(),
            ({
                let rem = old(self).remaining();
                if old(self).spec_done() {
                    r matches Ok(o) && o is None && *final(self) == *old(self)
                } else if old(self).value_owed() {
                    (r matches Err(e) && e.spec_kind() == ErrorKind::Misuse) && *final(self)
                        == *old(self)
                } else {
                    match parse_value(rem) {
                        Parsed::Found(v, n) => (r matches Ok(o) && o matches Some(key) && key@ == v)
                            && final(self).remaining() == rem.skip(n as int) && final(self).value_owed() && !final(self).spec_done(),
                        Parsed::Short => r matches Err(e) && e.spec_kind()
                            == ErrorKind::UnexpectedEnd,
                        Parsed::Fail(k) => r matches Err(e) && e.spec_kind() == k,
                    }
                }
            }),
    {
        if self.done {
            return Ok(None);
        }
        if self.pending {
            let mut message = String::new();
            message.push_str("the previous key's value has not been taken yet");
            return Err(Error { kind: ErrorKind::Misuse, message });
        }
        match self.de.decode_value() {
            Ok(key) => {
                self.pending = true;
                Ok(Some(key))
            },
            Err(e) => Err(e),
        }
    }

    /// Decode the value of the key just returned, then check for the
    /// map's end delimiter.  Asking for a value before its key, or
    /// twice in a row, is a misuse error and changes nothing.
    pub fn next_value(&mut self) -> (r: Result<Value, Error>)
        requires
            old(self).wf(),
        ensures
            final(self).wf(),
            final(self).spec_size_hint() == old(self).spec_size_hint(),
            ({
                let rem = old(self).remaining();
                if !old(self).value_owed() {
                    (r matches Err(e) && e.spec_kind() == ErrorKind::Misuse) && *final(self)
                        == *old(self)
                } else {
                    match parse_value(rem) {
                        Parsed::Found(v, n) => (r matches Ok(val) && val@ == v) && !final(self).value_owed() && final(self).spec_done() == (rem.skip(n as int).len() > 0
                            && rem.skip(n as int)[0] == MAP_END) && final(self).remaining() == (
                        if final(self).spec_done() {
                            rem.skip(n as int).skip(1)
                        } else {
                            rem.skip(n as int)
                        }),
                        Parsed::Short => r matches Err(e) && e.spec_kind()
                            == ErrorKind::UnexpectedEnd,
                        Parsed::Fail(k) => r matches Err(e) && e.spec_kind() == k,
                    }
                }
            }),
    {
        if !self.pending {
            let mut message = String::new();
            message.push_str("a value was asked for out of order; take the next key first");
            return Err(Error { kind: ErrorKind::Misuse, message });
        }
        match self.de.decode_value() {
            Ok(val) => {
                self.pending = false;
                let fin = match self.de.maybe_delimiter(MAP_END) {
                    Ok(f) => f,
                    Err(e) => {
                        proof {
                            assert(false);
                        }
                        return Err(e);
                    },
                };
                self.done = fin;
                Ok(val)
            },
            Err(e) => Err(e),
        }
    }
}

/// Incremental access to the elements of a list being decoded.  It
/// owns the decoder for its lifetime and hands it back on completion.
pub struct SeqAccess {
    de: Decoder,
    done: bool,
    hint: Option<usize>,
}

impl SeqAccess {
    /// The underlying decoder's bookkeeping is sound.
    pub closed spec fn wf(self) -> bool {
        self.de.wf()
    }

    /// Every byte not yet interpreted.
    pub closed spec fn remaining(self) -> Seq<u8> {
        self.de.remaining()
    }

    /// Whether the list's end delimiter has been consumed.
    pub closed spec fn spec_done(self) -> bool {
        self.done
    }

    /// The number of elements promised by the caller, if any.
    pub closed spec fn spec_size_hint(self) -> Option<usize> {
        self.hint
    }

    /// The number of elements promised by the caller, if any.
    pub fn size_hint(&self) -> (h: Option<usize>)
        ensures
            h == self.spec_size_hint(),
    {
        self.hint
    }

    /// Whether the list's end delimiter has been consumed.
    pub fn is_complete(&self) -> (b: bool)
        ensures
            b == self.spec_done(),
    {
        self.done
    }

    /// Hand the decoder back.
    pub fn into_inner(self) -> (d: Decoder)
        requires
            self.wf(),
        ensures
            d.wf(),
            d.remaining() == self.remaining(),
    {
        self.de
    }

    /// Decode the next element, then check for the list's end
    /// delimiter; report nothing once the list has ended.
    pub fn next_element(&mut self) -> (r: Result<Option<Value>, Error>)
        requires
            old(self).wf(),
        ensures
            final(self).wf(),
            final(self).spec_size_hint() == old(self).spec_size_hint(),
            ({
                let rem = old(self).remaining();
                if old(self).spec_done() {
                    r matches Ok(o) && o is None && *final(self) == *old(self)
                } else {
                    match parse_value(rem) {
                        Parsed::Found(v, n) => (r matches Ok(o) && o matches Some(el) && el@ == v)
                            && final(self).spec_done() == (rem.skip(n as int).len() > 0 && rem.skip(
                            n as int,
                        )[0] == LIST_END) && final(self).remaining() == (
                        if final(self).spec_done() {
                            rem.skip(n as int).skip(1)
                        } else {
                            rem.skip(n as int)
                        }),
                        Parsed::Short => r matches Err(e) && e.spec_kind()
                            == ErrorKind::UnexpectedEnd,
                        Parsed::Fail(k) => r matches Err(e) && e.spec_kind() == k,
                    }
                }
            }),
    {
        if self.done {
            return Ok(None);
        }
        match self.de.decode_value() {
            Ok(el) => {
                let fin = match self.de.maybe_delimiter(LIST_END) {
                    Ok(f) => f,
                    Err(e) => {
                        proof {
                            assert(false);
                        }
                        return Err(e);
                    },
                };
                self.done = fin;
                Ok(Some(el))
            },
            Err(e) => Err(e),
        }
    }
}

/// Incremental, bounded-memory access to a homogeneous bulk array
/// being decoded.  It owns the decoder for its lifetime and hands it
/// back on completion.
pub struct ArrayAccess {
    de: Decoder,
    etype: Type,
    done: bool,
}

impl ArrayAccess {
    /// The underlying decoder's bookkeeping is sound and the element
    /// kind is a scalar kind.
    pub closed spec fn wf(self) -> bool {
        self.de.wf() && self.etype != Type::Nil
    }

    /// Every byte not yet interpreted.
    pub closed spec fn remaining(self) -> Seq<u8> {
        self.de.remaining()
    }

    /// Whether the array's end delimiter has been consumed.
    pub closed spec fn spec_done(self) -> bool {
        self.done
    }

    /// The element kind announced by the array's tag byte.
    pub closed spec fn element_kind(self) -> Type {
        self.etype
    }

    /// The element kind announced by the array's tag byte.
    pub fn kind(&self) -> (k: Type)
        ensures
            k == self.element_kind(),
    {
        self.etype
    }

    /// Whether the array's end delimiter has been consumed.
    pub fn is_complete(&self) -> (b: bool)
        ensures
            b == self.spec_done(),
    {
        self.done
    }

    /// Hand the decoder back.
    pub fn into_inner(self) -> (d: Decoder)
        requires
            self.wf(),
        ensures
            d.wf(),
            d.remaining() == self.remaining(),
    {
        self.de
    }

    /// Decode up to `max` more elements as their raw unsigned
    /// readings.  An empty result means the array was already
    /// complete.
    pub fn buffer_raw(&mut self, max: usize) -> (r: Result<Vec<u64>, Error>)
        requires
            old(self).wf(),
            max * old(self).element_kind().width() <= usize::MAX,
        ensures
            final(self).wf(),
            final(self).element_kind() == old(self).element_kind(),
            ({
                let rem = old(self).remaining();
                let w = old(self).element_kind().width();
                if old(self).spec_done() {
                    r matches Ok(v) && v@.len() == 0 && *final(self) == *old(self)
                } else {
                    match fill_outcome(rem, w, max as nat) {
                        Parsed::Found(p, n) => (r matches Ok(v) && v@.map_values(|x: u64| x as nat)
                            == p.0) && final(self).spec_done() == p.1 && final(self).remaining()
                            == rem.skip(n as int),
                        Parsed::Short => r matches Err(e) && e.spec_kind()
                            == ErrorKind::UnexpectedEnd,
                        Parsed::Fail(k) => r matches Err(e) && e.spec_kind() == k,
                    }
                }
            }),
    {
        if self.done {
            return Ok(Vec::new());
        }
        let w = self.etype.byte_width();
        match self.de.fill_raw(w, max) {
            Ok(p) => {
                let (vals, fin) = p;
                self.done = fin;
                Ok(vals)
            },
            Err(e) => Err(e),
        }
    }

    /// Decode up to `max` more elements.  An empty result means the
    /// array was already complete.
    pub fn buffer_u8(&mut self, max: usize) -> (r: Result<Vec<u8>, Error>)
        requires
            old(self).wf(),
            old(self).element_kind() == Type::U8,
            max * 1 <= usize::MAX,
        ensures
            final(self).wf(),
            final(self).element_kind() == old(self).element_kind(),
            ({
                let rem = old(self).remaining();
                if old(self).spec_done() {
                    r matches Ok(v) && v@.len() == 0 && *final(self) == *old(self)
                } else {
                    match fill_outcome(rem, 1, max as nat) {
                        Parsed::Found(p, n) => r matches Ok(v) && v@ == p.0.map_values(
                            |x: nat| x as u8,
                        ) && final(self).spec_done() == p.1 && final(self).remaining() == rem.skip(
                            n as int,
                        ),
                        Parsed::Short => r matches Err(e) && e.spec_kind()
                            == ErrorKind::UnexpectedEnd,
                        Parsed::Fail(k) => r matches Err(e) && e.spec_kind() == k,
                    }
                }
            }),
    {
        let raws = match self.buffer_raw(max) {
            Ok(v) => v,
            Err(e) => {
                return Err(e);
            },
        };
        let mut out: Vec<u8> = Vec::new();
        let mut j: usize = 0;
        while j < raws.len()
            invariant
                j <= raws@.len(),
                out@ == raws@.take(j as int).map_values(|x: u64| x as u8),
            decreases raws@.len() - j,
        {
            out.push(raws[j] as u8);
            proof {
                assert(raws@.take(j as int).push(raws@[j as int]) =~= raws@.take(j + 1));
                assert(raws@.take(j + 1).map_values(|x: u64| x as u8) =~= raws@.take(
                    j as int,
                ).map_values(|x: u64| x as u8).push((|x: u64| x as u8)(raws@[j as int])));
            }
            j = j + 1;
        }
        proof {
            assert(raws@.take(raws@.len() as int) =~= raws@);
            assert(out@ =~= raws@.map_values(|x: u64| x as nat).map_values(|x: nat| x as u8));
        }
        Ok(out)
    }

    /// Decode up to `max` more elements.  An empty result means the
    /// array was already complete.
    pub fn buffer_u16(&mut self, max: usize) -> (r: Result<Vec<u16>, Error>)
        requires
            old(self).wf(),
            old(self).element_kind() == Type::U16,
            max * 2 <= usize::MAX,
        ensures
            final(self).wf(),
            final(self).element_kind() == old(self).element_kind(),
            ({
                let rem = old(self).remaining();
                if old(self).spec_done() {
                    r matches Ok(v) && v@.len() == 0 && *final(self) == *old(self)
                } else {
                    match fill_outcome(rem, 2, max as nat) {
                        Parsed::Found(p, n) => r matches Ok(v) && v@ == p.0.map_values(
                            |x: nat| x as u16,
                        ) && final(self).spec_done() == p.1 && final(self).remaining() == rem.skip(
                            n as int,
                        ),
                        Parsed::Short => r matches Err(e) && e.spec_kind()
                            == ErrorKind::UnexpectedEnd,
                        Parsed::Fail(k) => r matches Err(e) && e.spec_kind() == k,
                    }
                }
            }),
    {
        let raws = match self.buffer_raw(max) {
            Ok(v) => v,
            Err(e) => {
                return Err(e);
            },
        };
        let mut out: Vec<u16> = Vec::new();
        let mut j: usize = 0;
        while j < raws.len()
            invariant
                j <= raws@.len(),
                out@ == raws@.take(j as int).map_values(|x: u64| x as u16),
            decreases raws@.len() - j,
        {
            out.push(raws[j] as u16);
            proof {
                assert(raws@.take(j as int).push(raws@[j as int]) =~= raws@.take(j + 1));
                assert(raws@.take(j + 1).map_values(|x: u64| x as u16) =~= raws@.take(
                    j as int,
                ).map_values(|x: u64| x as u16).push((|x: u64| x as u16)(raws@[j as int])));
            }
            j = j + 1;
        }
        proof {
            assert(raws@.take(raws@.len() as int) =~= raws@);
            assert(out@ =~= raws@.map_values(|x: u64| x as nat).map_values(|x: nat| x as u16));
        }
        Ok(out)
    }

    /// Decode up to `max` more elements.  An empty result means the
    /// array was already complete.
    pub fn buffer_u32(&mut self, max: usize) -> (r: Result<Vec<u32>, Error>)
        requires
            old(self).wf(),
            old(self).element_kind() == Type::U32,
            max * 4 <= usize::MAX,
        ensures
            final(self).wf(),
            final(self).element_kind() == old(self).element_kind(),
            ({
                let rem = old(self).remaining();
                if old(self).spec_done() {
                    r matches Ok(v) && v@.len() == 0 && *final(self) == *old(self)
                } else {
                    match fill_outcome(rem, 4, max as nat) {
                        Parsed::Found(p, n) => r matches Ok(v) && v@ == p.0.map_values(
                            |x: nat| x as u32,
                        ) && final(self).spec_done() == p.1 && final(self).remaining() == rem.skip(
                            n as int,
                        ),
                        Parsed::Short => r matches Err(e) && e.spec_kind()
                            == ErrorKind::UnexpectedEnd,
                        Parsed::Fail(k) => r matches Err(e) && e.spec_kind() == k,
                    }
                }
            }),
    {
        let raws = match self.buffer_raw(max) {
            Ok(v) => v,
            Err(e) => {
                return Err(e);
            },
        };
        let mut out: Vec<u32> = Vec::new();
        let mut j: usize = 0;
        while j < raws.len()
            invariant
                j <= raws@.len(),
                out@ == raws@.take(j as int).map_values(|x: u64| x as u32),
            decreases raws@.len() - j,
        {
            out.push(raws[j] as u32);
            proof {
                assert(raws@.take(j as int).push(raws@[j as int]) =~= raws@.take(j + 1));
                assert(raws@.take(j + 1).map_values(|x: u64| x as u32) =~= raws@.take(
                    j as int,
                ).map_values(|x: u64| x as u32).push((|x: u64| x as u32)(raws@[j as int])));
            }
            j = j + 1;
        }
        proof {
            assert(raws@.take(raws@.len() as int) =~= raws@);
            assert(out@ =~= raws@.map_values(|x: u64| x as nat).map_values(|x: nat| x as u32));
        }
        Ok(out)
    }

    /// Decode up to `max` more elements.  An empty result means the
    /// array was already complete.
    pub fn buffer_u64(&mut self, max: usize) -> (r: Result<Vec<u64>, Error>)
        requires
            old(self).wf(),
            old(self).element_kind() == Type::U64,
            max * 8 <= usize::MAX,
        ensures
            final(self).wf(),
            final(self).element_kind() == old(self).element_kind(),
            ({
                let rem = old(self).remaining();
                if old(self).spec_done() {
                    r matches Ok(v) && v@.len() == 0 && *final(self) == *old(self)
                } else {
                    match fill_outcome(rem, 8, max as nat) {
                        Parsed::Found(p, n) => r matches Ok(v) && v@ == p.0.map_values(
                            |x: nat| x as u64,
                        ) && final(self).spec_done() == p.1 && final(self).remaining() == rem.skip(
                            n as int,
                        ),
                        Parsed::Short => r matches Err(e) && e.spec_kind()
                            == ErrorKind::UnexpectedEnd,
                        Parsed::Fail(k) => r matches Err(e) && e.spec_kind() == k,
                    }
                }
            }),
    {
        let raws = match self.buffer_raw(max) {
            Ok(v) => v,
            Err(e) => {
                return Err(e);
            },
        };
        let mut out: Vec<u64> = Vec::new();
        let mut j: usize = 0;
        while j < raws.len()
            invariant
                j <= raws@.len(),
                out@ == raws@.take(j as int).map_values(|x: u64| x as u64),
            decreases raws@.len() - j,
        {
            out.push(raws[j]);
            proof {
                assert(raws@.take(j as int).push(raws@[j as int]) =~= raws@.take(j + 1));
                assert(raws@.take(j + 1).map_values(|x: u64| x as u64) =~= raws@.take(
                    j as int,
                ).map_values(|x: u64| x as u64).push((|x: u64| x as u64)(raws@[j as int])));
            }
            j = j + 1;
        }
        proof {
            assert(raws@.take(raws@.len() as int) =~= raws@);
            assert(out@ =~= raws@.map_values(|x: u64| x as nat).map_values(|x: nat| x as u64));
        }
        Ok(out)
    }

    /// Decode up to `max` more elements.  An empty result means the
    /// array was already complete.
    pub fn buffer_i8(&mut self, max: usize) -> (r: Result<Vec<i8>, Error>)
        requires
            old(self).wf(),
            old(self).element_kind() == Type::I8,
            max * 1 <= usize::MAX,
        ensures
            final(self).wf(),
            final(self).element_kind() == old(self).element_kind(),
            ({
                let rem = old(self).remaining();
                if old(self).spec_done() {
                    r matches Ok(v) && v@.len() == 0 && *final(self) == *old(self)
                } else {
                    match fill_outcome(rem, 1, max as nat) {
                        Parsed::Found(p, n) => r matches Ok(v) && v@ == p.0.map_values(
                            |x: nat| x as u8 as i8,
                        ) && final(self).spec_done() == p.1 && final(self).remaining() == rem.skip(
                            n as int,
                        ),
                        Parsed::Short => r matches Err(e) && e.spec_kind()
                            == ErrorKind::UnexpectedEnd,
                        Parsed::Fail(k) => r matches Err(e) && e.spec_kind() == k,
                    }
                }
            }),
    {
        let raws = match self.buffer_raw(max) {
            Ok(v) => v,
            Err(e) => {
                return Err(e);
            },
        };
        let mut out: Vec<i8> = Vec::new();
        let mut j: usize = 0;
        while j < raws.len()
            invariant
                j <= raws@.len(),
                out@ == raws@.take(j as int).map_values(|x: u64| x as u8 as i8),
            decreases raws@.len() - j,
        {
            out.push((raws[j] as u8) as i8);
            proof {
                assert(raws@.take(j as int).push(raws@[j as int]) =~= raws@.take(j + 1));
                assert(raws@.take(j + 1).map_values(|x: u64| x as u8 as i8) =~= raws@.take(
                    j as int,
                ).map_values(|x: u64| x as u8 as i8).push((|x: u64| x as u8 as i8)(raws@[j as int])));
            }
            j = j + 1;
        }
        proof {
            assert(raws@.take(raws@.len() as int) =~= raws@);
            assert(out@ =~= raws@.map_values(|x: u64| x as nat).map_values(|x: nat| x as u8 as i8));
        }
        Ok(out)
    }

    /// Decode up to `max` more elements.  An empty result means the
    /// array was already complete.
    pub fn buffer_i16(&mut self, max: usize) -> (r: Result<Vec<i16>, Error>)
        requires
            old(self).wf(),
            old(self).element_kind() == Type::I16,
            max * 2 <= usize::MAX,
        ensures
            final(self).wf(),
            final(self).element_kind() == old(self).element_kind(),
            ({
                let rem = old(self).remaining();
                if old(self).spec_done() {
                    r matches Ok(v) && v@.len() == 0 && *final(self) == *old(self)
                } else {
                    match fill_outcome(rem, 2, max as nat) {
                        Parsed::Found(p, n) => r matches Ok(v) && v@ == p.0.map_values(
                            |x: nat| x as u16 as i16,
                        ) && final(self).spec_done() == p.1 && final(self).remaining() == rem.skip(
                            n as int,
                        ),
                        Parsed::Short => r matches Err(e) && e.spec_kind()
                            == ErrorKind::UnexpectedEnd,
                        Parsed::Fail(k) => r matches Err(e) && e.spec_kind() == k,
                    }
                }
            }),
    {
        let raws = match self.buffer_raw(max) {
            Ok(v) => v,
            Err(e) => {
                return Err(e);
            },
        };
        let mut out: Vec<i16> = Vec::new();
        let mut j: usize = 0;
        while j < raws.len()
            invariant
                j <= raws@.len(),
                out@ == raws@.take(j as int).map_values(|x: u64| x as u16 as i16),
            decreases raws@.len() - j,
        {
            out.push((raws[j] as u16) as i16);
            proof {
                assert(raws@.take(j as int).push(raws@[j as int]) =~= raws@.take(j + 1));
                assert(raws@.take(j + 1).map_values(|x: u64| x as u16 as i16) =~= raws@.take(
                    j as int,
                ).map_values(|x: u64| x as u16 as i16).push((|x: u64| x as u16 as i16)(raws@[j as int])));
            }
            j = j + 1;
        }
        proof {
            assert(raws@.take(raws@.len() as int) =~= raws@);
            assert(out@ =~= raws@.map_values(|x: u64| x as nat).map_values(|x: nat| x as u16 as i16));
        }
        Ok(out)
    }

    /// Decode up to `max` more elements.  An empty result means the
    /// array was already complete.
    pub fn buffer_i32(&mut self, max: usize) -> (r: Result<Vec<i32>, Error>)
        requires
            old(self).wf(),
            old(self).element_kind() == Type::I32,
            max * 4 <= usize::MAX,
        ensures
            final(self).wf(),
            final(self).element_kind() == old(self).element_kind(),
            ({
                let rem = old(self).remaining();
                if old(self).spec_done() {
                    r matches Ok(v) && v@.len() == 0 && *final(self) == *old(self)
                } else {
                    match fill_outcome(rem, 4, max as nat) {
                        Parsed::Found(p, n) => r matches Ok(v) && v@ == p.0.map_values(
                            |x: nat| x as u32 as i32,
                        ) && final(self).spec_done() == p.1 && final(self).remaining() == rem.skip(
                            n as int,
                        ),
                        Parsed::Short => r matches Err(e) && e.spec_kind()
                            == ErrorKind::UnexpectedEnd,
                        Parsed::Fail(k) => r matches Err(e) && e.spec_kind() == k,
                    }
                }
            }),
    {
        let raws = match self.buffer_raw(max) {
            Ok(v) => v,
            Err(e) => {
                return Err(e);
            },
        };
        let mut out: Vec<i32> = Vec::new();
        let mut j: usize = 0;
        while j < raws.len()
            invariant
                j <= raws@.len(),
                out@ == raws@.take(j as int).map_values(|x: u64| x as u32 as i32),
            decreases raws@.len() - j,
        {
            out.push((raws[j] as u32) as i32);
            proof {
                assert(raws@.take(j as int).push(raws@[j as int]) =~= raws@.take(j + 1));
                assert(raws@.take(j + 1).map_values(|x: u64| x as u32 as i32) =~= raws@.take(
                    j as int,
                ).map_values(|x: u64| x as u32 as i32).push((|x: u64| x as u32 as i32)(raws@[j as int])));
            }
            j = j + 1;
        }
        proof {
            assert(raws@.take(raws@.len() as int) =~= raws@);
            assert(out@ =~= raws@.map_values(|x: u64| x as nat).map_values(|x: nat| x as u32 as i32));
        }
        Ok(out)
    }

    /// Decode up to `max` more elements.  An empty result means the
    /// array was already complete.
    pub fn buffer_i64(&mut self, max: usize) -> (r: Result<Vec<i64>, Error>)
        requires
            old(self).wf(),
            old(self).element_kind() == Type::I64,
            max * 8 <= usize::MAX,
        ensures
            final(self).wf(),
            final(self).element_kind() == old(self).element_kind(),
            ({
                let rem = old(self).remaining();
                if old(self).spec_done() {
                    r matches Ok(v) && v@.len() == 0 && *final(self) == *old(self)
                } else {
                    match fill_outcome(rem, 8, max as nat) {
                        Parsed::Found(p, n) => r matches Ok(v) && v@ == p.0.map_values(
                            |x: nat| x as u64 as i64,
                        ) && final(self).spec_done() == p.1 && final(self).remaining() == rem.skip(
                            n as int,
                        ),
                        Parsed::Short => r matches Err(e) && e.spec_kind()
                            == ErrorKind::UnexpectedEnd,
                        Parsed::Fail(k) => r matches Err(e) && e.spec_kind() == k,
                    }
                }
            }),
    {
        let raws = match self.buffer_raw(max) {
            Ok(v) => v,
            Err(e) => {
                return Err(e);
            },
        };
        let mut out: Vec<i64> = Vec::new();
        let mut j: usize = 0;
        while j < raws.len()
            invariant
                j <= raws@.len(),
                out@ == raws@.take(j as int).map_values(|x: u64| x as u64 as i64),
            decreases raws@.len() - j,
        {
            out.push(raws[j] as i64);
            proof {
                assert(raws@.take(j as int).push(raws@[j as int]) =~= raws@.take(j + 1));
                assert(raws@.take(j + 1).map_values(|x: u64| x as u64 as i64) =~= raws@.take(
                    j as int,
                ).map_values(|x: u64| x as u64 as i64).push((|x: u64| x as u64 as i64)(raws@[j as int])));
            }
            j = j + 1;
        }
        proof {
            assert(raws@.take(raws@.len() as int) =~= raws@);
            assert(out@ =~= raws@.map_values(|x: u64| x as nat).map_values(|x: nat| x as u64 as i64));
        }
        Ok(out)
    }

    /// Decode up to `max` more elements.  An empty result means the
    /// array was already complete.
    pub fn buffer_f32_bits(&mut self, max: usize) -> (r: Result<Vec<u32>, Error>)
        requires
            old(self).wf(),
            old(self).element_kind() == Type::F32,
            max * 4 <= usize::MAX,
        ensures
            final(self).wf(),
            final(self).element_kind() == old(self).element_kind(),
            ({
                let rem = old(self).remaining();
                if old(self).spec_done() {
                    r matches Ok(v) && v@.len() == 0 && *final(self) == *old(self)
                } else {
                    match fill_outcome(rem, 4, max as nat) {
                        Parsed::Found(p, n) => r matches Ok(v) && v@ == p.0.map_values(
                            |x: nat| x as u32,
                        ) && final(self).spec_done() == p.1 && final(self).remaining() == rem.skip(
                            n as int,
                        ),
                        Parsed::Short => r matches Err(e) && e.spec_kind()
                            == ErrorKind::UnexpectedEnd,
                        Parsed::Fail(k) => r matches Err(e) && e.spec_kind() == k,
                    }
                }
            }),
    {
        let raws = match self.buffer_raw(max) {
            Ok(v) => v,
            Err(e) => {
                return Err(e);
            },
        };
        let mut out: Vec<u32> = Vec::new();
        let mut j: usize = 0;
        while j < raws.len()
            invariant
                j <= raws@.len(),
                out@ == raws@.take(j as int).map_values(|x: u64| x as u32),
            decreases raws@.len() - j,
        {
            out.push(raws[j] as u32);
            proof {
                assert(raws@.take(j as int).push(raws@[j as int]) =~= raws@.take(j + 1));
                assert(raws@.take(j + 1).map_values(|x: u64| x as u32) =~= raws@.take(
                    j as int,
                ).map_values(|x: u64| x as u32).push((|x: u64| x as u32)(raws@[j as int])));
            }
            j = j + 1;
        }
        proof {
            assert(raws@.take(raws@.len() as int) =~= raws@);
            assert(out@ =~= raws@.map_values(|x: u64| x as nat).map_values(|x: nat| x as u32));
        }
        Ok(out)
    }

    /// Decode up to `max` more elements.  An empty result means the
    /// array was already complete.
    pub fn buffer_f64_bits(&mut self, max: usize) -> (r: Result<Vec<u64>, Error>)
        requires
            old(self).wf(),
            old(self).element_kind() == Type::F64,
            max * 8 <= usize::MAX,
        ensures
            final(self).wf(),
            final(self).element_kind() == old(self).element_kind(),
            ({
                let rem = old(self).remaining();
                if old(self).spec_done() {
                    r matches Ok(v) && v@.len() == 0 && *final(self) == *old(self)
                } else {
                    match fill_outcome(rem, 8, max as nat) {
                        Parsed::Found(p, n) => r matches Ok(v) && v@ == p.0.map_values(
                            |x: nat| x as u64,
                        ) && final(self).spec_done() == p.1 && final(self).remaining() == rem.skip(
                            n as int,
                        ),
                        Parsed::Short => r matches Err(e) && e.spec_kind()
                            == ErrorKind::UnexpectedEnd,
                        Parsed::Fail(k) => r matches Err(e) && e.spec_kind() == k,
                    }
                }
            }),
    {
        let raws = match self.buffer_raw(max) {
            Ok(v) => v,
            Err(e) => {
                return Err(e);
            },
        };
        let mut out: Vec<u64> = Vec::new();
        let mut j: usize = 0;
        while j < raws.len()
            invariant
                j <= raws@.len(),
                out@ == raws@.take(j as int).map_values(|x: u64| x as u64),
            decreases raws@.len() - j,
        {
            out.push(raws[j]);
            proof {
                assert(raws@.take(j as int).push(raws@[j as int]) =~= raws@.take(j + 1));
                assert(raws@.take(j + 1).map_values(|x: u64| x as u64) =~= raws@.take(
                    j as int,
                ).map_values(|x: u64| x as u64).push((|x: u64| x as u64)(raws@[j as int])));
            }
            j = j + 1;
        }
        proof {
            assert(raws@.take(raws@.len() as int) =~= raws@);
            assert(out@ =~= raws@.map_values(|x: u64| x as nat).map_values(|x: nat| x as u64));
        }
        Ok(out)
    }

    /// Decode up to `max` more boolean elements, checking that every
    /// payload byte is 0 or 1.  An empty result means the array was
    /// already complete.
    pub fn buffer_bool(&mut self, max: usize) -> (r: Result<Vec<bool>, Error>)
        requires
            old(self).wf(),
            old(self).element_kind() == Type::Bool,
            max * 1 <= usize::MAX,
        ensures
            final(self).wf(),
            final(self).element_kind() == old(self).element_kind(),
            ({
                let rem = old(self).remaining();
                if old(self).spec_done() {
                    r matches Ok(v) && v@.len() == 0 && *final(self) == *old(self)
                } else {
                    match fill_outcome(rem, 1, max as nat) {
                        Parsed::Found(p, n) => (final(self).spec_done() == p.1 && final(self).remaining() == rem.skip(n as int)) && (if raws_ok(Type::Bool, p.0) {
                            r matches Ok(v) && v@ == p.0.map_values(|x: nat| x == 1)
                        } else {
                            r matches Err(e) && e.spec_kind() == ErrorKind::InvalidValue
                        }),
                        Parsed::Short => r matches Err(e) && e.spec_kind()
                            == ErrorKind::UnexpectedEnd,
                        Parsed::Fail(k) => r matches Err(e) && e.spec_kind() == k,
                    }
                }
            }),
    {
        let raws = match self.buffer_raw(max) {
            Ok(v) => v,
            Err(e) => {
                return Err(e);
            },
        };
        let ghost nats = raws@.map_values(|x: u64| x as nat);
        match vals_to_bool(&raws) {
            Ok(out) => {
                proof {
                    assert forall|t: int| 0 <= t < nats.len() implies #[trigger] nats[t] <= 1 by {
                        assert(nats[t] == raws@[t] as nat);
                    }
                    assert(out@ =~= nats.map_values(|x: nat| x == 1));
                }
                Ok(out)
            },
            Err(e) => {
                proof {
                    if old(self).spec_done() || !(raws@.len() > 0) {
                    }
                    assert(exists|t: int|
                        0 <= t < raws@.len() && !(#[trigger] raws@[t] <= 1));
                    let t = choose|t: int| 0 <= t < raws@.len() && !(#[trigger] raws@[t] <= 1);
                    assert(nats[t] == raws@[t] as nat);
                    assert(!raws_ok(Type::Bool, nats));
                }
                Err(e)
            },
        }
    }
}

} // verus!
