//! The laws the codec obeys.
//!
//! The central theorem is `lemma_parse_of_wire`: for every well-formed
//! value, parsing its wire bytes — with anything at all following them —
//! yields exactly that value and consumes exactly its wire bytes.
//! Together with the encoder's contracts (`chunks_flat` of an encoded
//! stream is `wire_of`) and the decoder's (`decode_value` returns what
//! `parse_value` says of `remaining()`), this is the round-trip law for
//! every scalar kind and its boundary values, for strings holding
//! literal delimiter and escape bytes, for bulk arrays, and for empty
//! and nested lists and maps.  Because `remaining()` is the
//! concatenation of the source's chunks, none of this depends on where
//! the chunk boundaries fall.

use vstd::prelude::*;

verus! {

use crate::constants::{Type, ARRAY_DELIMIT, ESCAPE, LIST_BEGIN, LIST_END, MAP_BEGIN, MAP_END,
    STRING_DELIMIT};
use crate::element::{be_bytes, be_value, lemma_be_bytes_value, lemma_pow256_values, pow256};
use crate::value::{wf_entries, wf_items, SpecValue};
use crate::wire::{array_ctl, array_of, be_chunks, bulk_content, esc_clean, escape_with,
    kind_of, lemma_esc_clean_append, lemma_unescape_append_clean, needs_escape, parse_bulk_body,
    parse_list_tail, parse_map_tail, parse_scalar, parse_value, raws_of, raws_ok, scalar_of,
    scalar_raw, scan_to_end, string_ctl, unescape, wire_entries, wire_list, wire_of, ErrorKind,
    Parsed};

/// Unescaping undoes escaping exactly.
pub proof fn lemma_unescape_escape(content: Seq<u8>, ctl: Seq<u8>)
    ensures
        unescape(escape_with(content, ctl)) == content,
    decreases content.len(),
{
    if content.len() == 0 {
    } else {
        let b = content[0];
        let tail = escape_with(content.skip(1), ctl);
        lemma_unescape_escape(content.skip(1), ctl);
        if needs_escape(b, ctl) {
            let s = seq![ESCAPE, b] + tail;
            assert(escape_with(content, ctl) == s);
            assert(s[0] == ESCAPE);
            assert(s.len() >= 2);
            assert(s[1] == b);
            assert(s.skip(2) =~= tail);
            assert(unescape(s) == seq![b] + unescape(tail));
            assert(seq![b] + content.skip(1) =~= content);
        } else {
            let s = seq![b] + tail;
            assert(escape_with(content, ctl) == s);
            assert(s[0] == b);
            assert(b != ESCAPE);
            assert(s.skip(1) =~= tail);
            assert(unescape(s) == seq![b] + unescape(tail));
            assert(seq![b] + content.skip(1) =~= content);
        }
    }
}

/// Escaped content holds no unescaped end delimiter: the scan runs to
/// the very end delimiter that follows the content.
pub proof fn lemma_scan_escaped(content: Seq<u8>, ctl: Seq<u8>, end: u8, rest: Seq<u8>)
    requires
        ctl.contains(end),
        end != ESCAPE,
    ensures
        scan_to_end(escape_with(content, ctl) + (seq![end] + rest), end) == Some(
            escape_with(content, ctl).len(),
        ),
    decreases content.len(),
{
    if content.len() == 0 {
        let s = escape_with(content, ctl) + (seq![end] + rest);
        assert(escape_with(content, ctl) =~= Seq::<u8>::empty());
        assert(s =~= seq![end] + rest);
        assert(s[0] == end);
    } else {
        let b = content[0];
        let tail = escape_with(content.skip(1), ctl);
        lemma_scan_escaped(content.skip(1), ctl, end, rest);
        if needs_escape(b, ctl) {
            let s = (seq![ESCAPE, b] + tail) + (seq![end] + rest);
            assert(escape_with(content, ctl) + (seq![end] + rest) =~= s);
            assert(s[0] == ESCAPE);
            assert(s[0] != end);
            assert(s.len() >= 2);
            assert(s.skip(2) =~= tail + (seq![end] + rest));
            assert(scan_to_end(s, end) == Some((tail.len() + 2) as nat));
            assert(escape_with(content, ctl).len() == tail.len() + 2);
        } else {
            let s = (seq![b] + tail) + (seq![end] + rest);
            assert(escape_with(content, ctl) + (seq![end] + rest) =~= s);
            assert(s[0] == b);
            assert(b != end);
            assert(b != ESCAPE);
            assert(s.skip(1) =~= tail + (seq![end] + rest));
            assert(scan_to_end(s, end) == Some((tail.len() + 1) as nat));
            assert(escape_with(content, ctl).len() == tail.len() + 1);
        }
    }
}

/// Escaped content with nothing after it scans to no end delimiter at
/// all.
pub proof fn lemma_scan_escaped_no_end(content: Seq<u8>, ctl: Seq<u8>, end: u8)
    requires
        ctl.contains(end),
        end != ESCAPE,
    ensures
        scan_to_end(escape_with(content, ctl), end) is None,
    decreases content.len(),
{
    if content.len() == 0 {
    } else {
        let b = content[0];
        let tail = escape_with(content.skip(1), ctl);
        lemma_scan_escaped_no_end(content.skip(1), ctl, end);
        if needs_escape(b, ctl) {
            let s = seq![ESCAPE, b] + tail;
            assert(escape_with(content, ctl) == s);
            assert(s[0] == ESCAPE);
            assert(s[0] != end);
            if s.len() == 1 {
            } else {
                assert(s.skip(2) =~= tail);
            }
        } else {
            let s = seq![b] + tail;
            assert(escape_with(content, ctl) == s);
            assert(s[0] == b);
            assert(b != end);
            assert(b != ESCAPE);
            assert(s.skip(1) =~= tail);
        }
    }
}

/// Every raw element reading of a bulk-array value fits its kind's
/// width, and boolean readings are 0 or 1.
pub proof fn lemma_raws_of_bounded(v: SpecValue)
    requires
        v matches SpecValue::ArrayBool(_) || v matches SpecValue::ArrayU8(_) || v matches
            SpecValue::ArrayU16(_) || v matches SpecValue::ArrayU32(_) || v matches
            SpecValue::ArrayU64(_) || v matches SpecValue::ArrayI8(_) || v matches
            SpecValue::ArrayI16(_) || v matches SpecValue::ArrayI32(_) || v matches
            SpecValue::ArrayI64(_) || v matches SpecValue::ArrayF32Bits(_) || v matches
            SpecValue::ArrayF64Bits(_),
    ensures
        forall|j: int|
            0 <= j < raws_of(v).len() ==> #[trigger] raws_of(v)[j] < pow256(kind_of(v).width()),
        raws_ok(kind_of(v), raws_of(v)),
{
    lemma_pow256_values();
}

/// The raw content of a bulk array is a whole number of element runs,
/// and reading it back as fixed-width runs yields the elements again.
#[verifier::rlimit(100)]
#[verifier::spinoff_prover]
pub proof fn lemma_bulk_content_round(raws: Seq<nat>, w: nat)
    requires
        w >= 1,
        forall|j: int| 0 <= j < raws.len() ==> #[trigger] raws[j] < pow256(w),
    ensures
        bulk_content(raws, w).len() == raws.len() * w,
        be_chunks(bulk_content(raws, w), w) == raws,
    decreases raws.len(),
{
    let content = bulk_content(raws, w);
    if raws.len() == 0 {
        assert(raws.map_values(|r: nat| be_bytes(r, w)) =~= Seq::<Seq<u8>>::empty());
        assert(content =~= Seq::<u8>::empty());
        assert(be_chunks(content, w) =~= raws);
    } else {
        let first = raws[0];
        let tail = raws.skip(1);
        lemma_be_bytes_value(first, w);
        assert(forall|j: int| 0 <= j < tail.len() ==> #[trigger] tail[j] < pow256(w));
        lemma_bulk_content_round(tail, w);
        let m = raws.map_values(|r: nat| be_bytes(r, w));
        assert(m.len() > 0);
        assert(m.first() == be_bytes(first, w));
        assert(m.drop_first() =~= tail.map_values(|r: nat| be_bytes(r, w)));
        assert(m.flatten() == m.first() + m.drop_first().flatten());
        assert(content == be_bytes(first, w) + bulk_content(tail, w));
        assert(content.len() == w + tail.len() * w);
        assert(raws.len() * w == w + tail.len() * w) by (nonlinear_arith)
            requires
                raws.len() == tail.len() + 1,
        ;
        let tc = bulk_content(tail, w);
        assert(be_chunks(content, w).len() == raws.len()) by {
            assert(content.len() / w == raws.len()) by (nonlinear_arith)
                requires
                    content.len() == raws.len() * w,
                    w >= 1,
            ;
        }
        assert forall|j: int| 0 <= j < raws.len() implies #[trigger] be_chunks(content, w)[j]
            == raws[j] by {
            if j == 0 {
                assert(content.subrange(0, w as int) =~= be_bytes(first, w));
            } else {
                assert((j - 1) * w == j * w - w) by (nonlinear_arith);
                assert(j * w >= w && (j + 1) * w <= content.len() && (j - 1) * w >= 0 && j * w - w
                    + tc.len() >= j * w) by (nonlinear_arith)
                    requires
                        1 <= j < raws.len(),
                        w >= 1,
                        content.len() == raws.len() * w,
                        tc.len() == (raws.len() - 1) * w,
                ;
                assert(w + (j - 1) * w == j * w) by (nonlinear_arith);
                assert(w + j * w == (j + 1) * w) by (nonlinear_arith);
                assert(content.subrange(j * w, (j + 1) * w) =~= tc.subrange(
                    (j - 1) * w,
                    j * w,
                )) by {
                    assert forall|t: int| 0 <= t < w implies #[trigger] content.subrange(
                        j * w,
                        (j + 1) * w,
                    )[t] == tc.subrange((j - 1) * w, j * w)[t] by {
                        assert(content[j * w + t] == tc[(j - 1) * w + t]);
                    }
                }
                assert(be_chunks(tc, w)[j - 1] == raws[j]);
            }
        }
        assert(be_chunks(content, w) =~= raws);
    }
}

/// Reinterpreting a signed value's unsigned wire reading recovers the
/// value.
pub proof fn lemma_signed_casts()
    by (bit_vector)
    ensures
        forall|x: i8| #[trigger] ((x as u8) as i8) == x,
        forall|x: i16| #[trigger] ((x as u16) as i16) == x,
        forall|x: i32| #[trigger] ((x as u32) as i32) == x,
        forall|x: i64| #[trigger] ((x as u64) as i64) == x,
{
}

/// Every value's wire bytes begin with a byte that can begin a value:
/// never an end delimiter.
pub proof fn lemma_wire_head(v: SpecValue)
    ensures
        wire_of(v).len() >= 1,
        wire_of(v)[0] != LIST_END,
        wire_of(v)[0] != MAP_END,
{
    match v {
        SpecValue::Text(_) => {
            assert(wire_of(v)[0] == STRING_DELIMIT);
        },
        SpecValue::List(_) => {
            assert(wire_of(v)[0] == LIST_BEGIN);
        },
        SpecValue::Dict(_) => {
            assert(wire_of(v)[0] == MAP_BEGIN);
        },
        SpecValue::Nil => {
            assert(wire_of(v)[0] == 1);
        },
        SpecValue::ArrayBool(_) | SpecValue::ArrayU8(_) | SpecValue::ArrayU16(_)
            | SpecValue::ArrayU32(_) | SpecValue::ArrayU64(_) | SpecValue::ArrayI8(_)
            | SpecValue::ArrayI16(_) | SpecValue::ArrayI32(_) | SpecValue::ArrayI64(_)
            | SpecValue::ArrayF32Bits(_) | SpecValue::ArrayF64Bits(_) => {
            assert(wire_of(v)[0] == ARRAY_DELIMIT);
        },
        _ => {
            assert(wire_of(v)[0] == kind_of(v).tag());
            assert(kind_of(v).tag() <= 12);
        },
    }
}

/// The central law: parsing a well-formed value's wire bytes, whatever
/// follows them, yields exactly that value and consumes exactly its
/// wire bytes.  Instantiated through the encoder's and decoder's
/// contracts, this says `decode(encode(v)) == v` for every well-formed
/// value: every scalar kind at every value including its bounds,
/// strings holding literal delimiter and escape bytes, bulk arrays,
/// and empty or nested lists and maps.
#[verifier::rlimit(100)]
pub proof fn lemma_parse_of_wire(v: SpecValue, rest: Seq<u8>)
    requires
        v.wf(),
    ensures
        parse_value(wire_of(v) + rest) == Parsed::<SpecValue>::Found(v, wire_of(v).len()),
    decreases v, 0nat,
{
    let s = wire_of(v) + rest;
    lemma_pow256_values();
    match v {
        SpecValue::Nil => {
            assert(s[0] == 1);
        },
        SpecValue::Bool(_) | SpecValue::U8(_) | SpecValue::U16(_) | SpecValue::U32(_)
            | SpecValue::U64(_) | SpecValue::I8(_) | SpecValue::I16(_) | SpecValue::I32(_)
            | SpecValue::I64(_) | SpecValue::F32Bits(_) | SpecValue::F64Bits(_) => {
            let k = kind_of(v);
            let w = k.width();
            let raw = scalar_raw(v);
            lemma_signed_casts();
            assert(raw < pow256(w));
            lemma_be_bytes_value(raw, w);
            assert(s[0] == k.tag());
            assert(Type::from_tag(k.tag()) == Some(k));
            assert(s.len() >= 1 + w);
            assert(s.subrange(1, 1 + w as int) =~= be_bytes(raw, w));
            assert(parse_scalar(s, k) == Parsed::<nat>::Found(raw, (1 + w) as nat));
            assert(scalar_of(k, raw) == v);
        },
        SpecValue::Text(bytes) => {
            let escaped = escape_with(bytes, string_ctl());
            assert(string_ctl().contains(STRING_DELIMIT)) by {
                assert(string_ctl()[0] == STRING_DELIMIT);
            }
            assert(s =~= seq![STRING_DELIMIT] + (escaped + (seq![STRING_DELIMIT] + rest)));
            assert(s[0] == STRING_DELIMIT);
            assert(s.skip(1) =~= escaped + (seq![STRING_DELIMIT] + rest));
            lemma_scan_escaped(bytes, string_ctl(), STRING_DELIMIT, rest);
            assert(scan_to_end(s.skip(1), STRING_DELIMIT) == Some(escaped.len()));
            assert(s.skip(1).take(escaped.len() as int) =~= escaped);
            lemma_unescape_escape(bytes, string_ctl());
            assert(unescape(s.skip(1).take(escaped.len() as int)) == bytes);
        },
        SpecValue::List(items) => {
            let wl = wire_list(items);
            assert(s =~= seq![LIST_BEGIN] + (wl + (seq![LIST_END] + rest)));
            assert(s[0] == LIST_BEGIN);
            assert(s.skip(1) =~= wl + (seq![LIST_END] + rest));
            assert(wf_items(items));
            lemma_parse_of_wire_list(items, rest);
        },
        SpecValue::Dict(entries) => {
            let we = wire_entries(entries);
            assert(s =~= seq![MAP_BEGIN] + (we + (seq![MAP_END] + rest)));
            assert(s[0] == MAP_BEGIN);
            assert(s.skip(1) =~= we + (seq![MAP_END] + rest));
            assert(wf_entries(entries));
            lemma_parse_of_wire_entries(entries, rest);
        },
        SpecValue::ArrayBool(_) | SpecValue::ArrayU8(_) | SpecValue::ArrayU16(_)
            | SpecValue::ArrayU32(_) | SpecValue::ArrayU64(_) | SpecValue::ArrayI8(_)
            | SpecValue::ArrayI16(_) | SpecValue::ArrayI32(_) | SpecValue::ArrayI64(_)
            | SpecValue::ArrayF32Bits(_) | SpecValue::ArrayF64Bits(_) => {
            let k = kind_of(v);
            let w = k.width();
            let raws = raws_of(v);
            let content = bulk_content(raws, w);
            let escaped = escape_with(content, array_ctl());
            lemma_signed_casts();
            assert(s =~= seq![ARRAY_DELIMIT, k.tag()] + (escaped + (seq![ARRAY_DELIMIT] + rest)));
            assert(s[0] == ARRAY_DELIMIT);
            assert(s.len() >= 2);
            assert(s[1] == k.tag());
            assert(Type::from_tag(k.tag()) == Some(k));
            assert(k != Type::Nil);
            let body = s.skip(2);
            assert(body =~= escaped + (seq![ARRAY_DELIMIT] + rest));
            assert(array_ctl().contains(ARRAY_DELIMIT)) by {
                assert(array_ctl()[0] == ARRAY_DELIMIT);
            }
            lemma_scan_escaped(content, array_ctl(), ARRAY_DELIMIT, rest);
            assert(scan_to_end(body, ARRAY_DELIMIT) == Some(escaped.len()));
            assert(body.take(escaped.len() as int) =~= escaped);
            lemma_unescape_escape(content, array_ctl());
            assert(unescape(body.take(escaped.len() as int)) == content);
            lemma_raws_of_bounded(v);
            lemma_bulk_content_round(raws, w);
            assert(content.len() % w == 0) by (nonlinear_arith)
                requires
                    content.len() == raws.len() * w,
                    w >= 1,
            ;
            assert(be_chunks(content, w) == raws);
            assert(array_of(k, raws) == v) by {
                match v {
                    SpecValue::ArrayBool(xs) => {
                        assert(raws.map_values(|r: nat| r == 1) =~= xs);
                    },
                    SpecValue::ArrayU8(xs) => {
                        assert(raws.map_values(|r: nat| r as u8) =~= xs);
                    },
                    SpecValue::ArrayU16(xs) => {
                        assert(raws.map_values(|r: nat| r as u16) =~= xs);
                    },
                    SpecValue::ArrayU32(xs) => {
                        assert(raws.map_values(|r: nat| r as u32) =~= xs);
                    },
                    SpecValue::ArrayU64(xs) => {
                        assert(raws.map_values(|r: nat| r as u64) =~= xs);
                    },
                    SpecValue::ArrayI8(xs) => {
                        assert(raws.map_values(|r: nat| r as u8 as i8) =~= xs);
                    },
                    SpecValue::ArrayI16(xs) => {
                        assert(raws.map_values(|r: nat| r as u16 as i16) =~= xs);
                    },
                    SpecValue::ArrayI32(xs) => {
                        assert(raws.map_values(|r: nat| r as u32 as i32) =~= xs);
                    },
                    SpecValue::ArrayI64(xs) => {
                        assert(raws.map_values(|r: nat| r as u64 as i64) =~= xs);
                    },
                    SpecValue::ArrayF32Bits(xs) => {
                        assert(raws.map_values(|r: nat| r as u32) =~= xs);
                    },
                    SpecValue::ArrayF64Bits(xs) => {
                        assert(raws.map_values(|r: nat| r as u64) =~= xs);
                    },
                    _ => {},
                }
            }
            assert(parse_bulk_body(body, k) == Parsed::<SpecValue>::Found(
                v,
                (escaped.len() + 1) as nat,
            ));
            assert(wire_of(v).len() == 2 + escaped.len() + 1);
        },
    }
}

/// Parsing the wire bytes of well-formed list elements followed by the
/// end delimiter, whatever follows it, yields exactly those elements.
#[verifier::rlimit(100)]
pub proof fn lemma_parse_of_wire_list(items: Seq<SpecValue>, rest: Seq<u8>)
    requires
        wf_items(items),
    ensures
        parse_list_tail(wire_list(items) + (seq![LIST_END] + rest)) == Parsed::<
            Seq<SpecValue>,
        >::Found(items, (wire_list(items).len() + 1) as nat),
    decreases items, 1nat,
{
    let s = wire_list(items) + (seq![LIST_END] + rest);
    if items.len() == 0 {
        assert(wire_list(items) =~= Seq::<u8>::empty());
        assert(s =~= seq![LIST_END] + rest);
        assert(s[0] == LIST_END);
        assert(items =~= Seq::<SpecValue>::empty());
    } else {
        let v0 = items[0];
        let tail = items.subrange(1, items.len() as int);
        assert(items[0].wf());
        assert(wf_items(tail));
        assert(wire_list(items) == wire_of(v0) + wire_list(tail));
        let inner = wire_list(tail) + (seq![LIST_END] + rest);
        assert(s =~= wire_of(v0) + inner);
        lemma_wire_head(v0);
        assert(s.len() > 0);
        assert(s[0] == wire_of(v0)[0]);
        assert(s[0] != LIST_END);
        lemma_parse_of_wire(v0, inner);
        let n0 = wire_of(v0).len();
        assert(parse_value(s) == Parsed::<SpecValue>::Found(v0, n0));
        assert(1 <= n0 <= s.len());
        assert(s.skip(n0 as int) =~= inner);
        lemma_parse_of_wire_list(tail, rest);
        assert(seq![v0] + tail =~= items);
    }
}

/// Parsing the wire bytes of well-formed map entries followed by the
/// end delimiter, whatever follows it, yields exactly those entries.
#[verifier::rlimit(100)]
pub proof fn lemma_parse_of_wire_entries(entries: Seq<(SpecValue, SpecValue)>, rest: Seq<u8>)
    requires
        wf_entries(entries),
    ensures
        parse_map_tail(wire_entries(entries) + (seq![MAP_END] + rest)) == Parsed::<
            Seq<(SpecValue, SpecValue)>,
        >::Found(entries, (wire_entries(entries).len() + 1) as nat),
    decreases entries, 1nat,
{
    let s = wire_entries(entries) + (seq![MAP_END] + rest);
    if entries.len() == 0 {
        assert(wire_entries(entries) =~= Seq::<u8>::empty());
        assert(s =~= seq![MAP_END] + rest);
        assert(s[0] == MAP_END);
        assert(entries =~= Seq::<(SpecValue, SpecValue)>::empty());
    } else {
        let kv = entries[0];
        let tail = entries.subrange(1, entries.len() as int);
        assert(entries[0].0.wf() && entries[0].1.wf());
        assert(kv.0.wf() && kv.1.wf());
        assert(wf_entries(tail));
        assert(wire_entries(entries) == wire_of(kv.0) + wire_of(kv.1) + wire_entries(tail));
        let inner2 = wire_entries(tail) + (seq![MAP_END] + rest);
        let inner1 = wire_of(kv.1) + inner2;
        assert(s =~= wire_of(kv.0) + inner1);
        lemma_wire_head(kv.0);
        assert(s.len() > 0);
        assert(s[0] == wire_of(kv.0)[0]);
        assert(s[0] != MAP_END);
        lemma_parse_of_wire(kv.0, inner1);
        let n0 = wire_of(kv.0).len();
        assert(parse_value(s) == Parsed::<SpecValue>::Found(kv.0, n0));
        assert(1 <= n0 <= s.len());
        assert(s.skip(n0 as int) =~= inner1);
        lemma_parse_of_wire(kv.1, inner2);
        let n1 = wire_of(kv.1).len();
        assert(parse_value(s.skip(n0 as int)) == Parsed::<SpecValue>::Found(kv.1, n1));
        lemma_wire_head(kv.1);
        assert(1 <= n1 <= s.len() - n0);
        assert(s.skip(n0 as int).skip(n1 as int) =~= s.skip((n0 + n1) as int));
        assert(s.skip((n0 + n1) as int) =~= inner2);
        lemma_parse_of_wire_entries(tail, rest);
        assert(seq![(kv.0, kv.1)] + tail =~= entries);
    }
}

/// A list tail with its end delimiter missing runs out of bytes rather
/// than producing anything.
pub proof fn lemma_list_tail_short(items: Seq<SpecValue>)
    requires
        wf_items(items),
    ensures
        parse_list_tail(wire_list(items)) is Short,
    decreases items.len(),
{
    let s = wire_list(items);
    if items.len() == 0 {
        assert(s =~= Seq::<u8>::empty());
    } else {
        let v0 = items[0];
        let tail = items.subrange(1, items.len() as int);
        assert(s == wire_of(v0) + wire_list(tail));
        lemma_wire_head(v0);
        assert(s.len() > 0);
        assert(s[0] == wire_of(v0)[0]);
        assert(s[0] != LIST_END);
        lemma_parse_of_wire(v0, wire_list(tail));
        let n0 = wire_of(v0).len();
        assert(parse_value(s) == Parsed::<SpecValue>::Found(v0, n0));
        assert(1 <= n0 <= s.len());
        assert(s.skip(n0 as int) =~= wire_list(tail));
        lemma_list_tail_short(tail);
    }
}

/// A run of map entries with the end delimiter missing runs out of
/// bytes rather than producing anything.
pub proof fn lemma_map_tail_short(entries: Seq<(SpecValue, SpecValue)>)
    requires
        wf_entries(entries),
    ensures
        parse_map_tail(wire_entries(entries)) is Short,
    decreases entries.len(),
{
    let s = wire_entries(entries);
    if entries.len() == 0 {
        assert(s =~= Seq::<u8>::empty());
    } else {
        let kv = entries[0];
        let tail = entries.subrange(1, entries.len() as int);
        assert(s == wire_of(kv.0) + wire_of(kv.1) + wire_entries(tail));
        let inner1 = wire_of(kv.1) + wire_entries(tail);
        assert(s =~= wire_of(kv.0) + inner1);
        lemma_wire_head(kv.0);
        assert(s.len() > 0);
        assert(s[0] == wire_of(kv.0)[0]);
        assert(s[0] != MAP_END);
        lemma_parse_of_wire(kv.0, inner1);
        let n0 = wire_of(kv.0).len();
        assert(parse_value(s) == Parsed::<SpecValue>::Found(kv.0, n0));
        assert(1 <= n0 <= s.len());
        assert(s.skip(n0 as int) =~= inner1);
        lemma_parse_of_wire(kv.1, wire_entries(tail));
        let n1 = wire_of(kv.1).len();
        assert(parse_value(s.skip(n0 as int)) == Parsed::<SpecValue>::Found(kv.1, n1));
        lemma_wire_head(kv.1);
        assert(1 <= n1 <= s.len() - n0);
        assert(s.skip(n0 as int).skip(n1 as int) =~= s.skip((n0 + n1) as int));
        assert(s.skip((n0 + n1) as int) =~= wire_entries(tail));
        lemma_map_tail_short(tail);
    }
}

/// Truncated input: removing the final end delimiter from a
/// well-formed encoded map, list, bulk array or string leaves bytes
/// that run out mid-value — the decoder reports the end of the source,
/// never a silent partial result.
pub proof fn lemma_truncated_wire(v: SpecValue)
    requires
        v.wf(),
        v matches SpecValue::List(_) || v matches SpecValue::Dict(_) || v matches SpecValue::Text(
            _,
        ) || v matches SpecValue::ArrayBool(_) || v matches SpecValue::ArrayU8(_) || v matches
            SpecValue::ArrayU16(_) || v matches SpecValue::ArrayU32(_) || v matches
            SpecValue::ArrayU64(_) || v matches SpecValue::ArrayI8(_) || v matches
            SpecValue::ArrayI16(_) || v matches SpecValue::ArrayI32(_) || v matches
            SpecValue::ArrayI64(_) || v matches SpecValue::ArrayF32Bits(_) || v matches
            SpecValue::ArrayF64Bits(_),
    ensures
        parse_value(wire_of(v).take(wire_of(v).len() - 1)) is Short,
{
    let w = wire_of(v);
    lemma_wire_head(v);
    let t = w.take(w.len() - 1);
    match v {
        SpecValue::List(items) => {
            assert(t =~= seq![LIST_BEGIN] + wire_list(items));
            assert(t[0] == LIST_BEGIN);
            assert(t.skip(1) =~= wire_list(items));
            assert(wf_items(items));
            lemma_list_tail_short(items);
        },
        SpecValue::Dict(entries) => {
            assert(t =~= seq![MAP_BEGIN] + wire_entries(entries));
            assert(t[0] == MAP_BEGIN);
            assert(t.skip(1) =~= wire_entries(entries));
            assert(wf_entries(entries));
            lemma_map_tail_short(entries);
        },
        SpecValue::Text(bytes) => {
            let escaped = escape_with(bytes, string_ctl());
            assert(t =~= seq![STRING_DELIMIT] + escaped);
            assert(t[0] == STRING_DELIMIT);
            assert(t.skip(1) =~= escaped);
            assert(string_ctl().contains(STRING_DELIMIT)) by {
                assert(string_ctl()[0] == STRING_DELIMIT);
            }
            lemma_scan_escaped_no_end(bytes, string_ctl(), STRING_DELIMIT);
        },
        _ => {
            let k = kind_of(v);
            let content = bulk_content(raws_of(v), k.width());
            let escaped = escape_with(content, array_ctl());
            assert(t =~= seq![ARRAY_DELIMIT, k.tag()] + escaped);
            assert(t[0] == ARRAY_DELIMIT);
            assert(t.len() >= 2);
            assert(t[1] == k.tag());
            assert(Type::from_tag(k.tag()) == Some(k));
            assert(k != Type::Nil);
            assert(t.skip(2) =~= escaped);
            assert(array_ctl().contains(ARRAY_DELIMIT)) by {
                assert(array_ctl()[0] == ARRAY_DELIMIT);
            }
            lemma_scan_escaped_no_end(content, array_ctl(), ARRAY_DELIMIT);
        },
    }
}

/// The whole element run of a bulk array body: everything up to the
/// end delimiter, read as fixed-width runs, with the bytes it occupies
/// including that delimiter.
pub open spec fn array_elems(s: Seq<u8>, w: nat) -> Parsed<Seq<nat>> {
    match scan_to_end(s, ARRAY_DELIMIT) {
        Option::None => Parsed::Short,
        Option::Some(i) => {
            let content = unescape(s.take(i as int));
            if content.len() % w != 0 {
                Parsed::Fail(ErrorKind::InvalidLength)
            } else {
                Parsed::Found(be_chunks(content, w), i + 1)
            }
        },
    }
}

/// If a budgeted scan runs out of bytes, so does the unbudgeted scan.
pub proof fn lemma_scan_bulk_exhausted(s: Seq<u8>, budget: nat)
    requires
        crate::wire::scan_bulk(s, budget) is None,
    ensures
        scan_to_end(s, ARRAY_DELIMIT) is None,
    decreases s.len(),
{
    if budget == 0 {
    } else if s.len() == 0 {
    } else if s[0] == ARRAY_DELIMIT {
    } else if s[0] == ESCAPE {
        if s.len() == 1 {
        } else {
            lemma_scan_bulk_exhausted(s.skip(2), (budget - 1) as nat);
        }
    } else {
        lemma_scan_bulk_exhausted(s.skip(1), (budget - 1) as nat);
    }
}

/// What a budgeted scan establishes about its stopping point: the span
/// is whole escape units holding one unescaped byte per budget unit
/// spent; no unescaped end delimiter lies inside it; and if the scan
/// stopped for a reason other than the end delimiter or exhaustion, the
/// whole budget was spent.
pub proof fn lemma_scan_bulk_stop(s: Seq<u8>, budget: nat)
    requires
        crate::wire::scan_bulk(s, budget) is Some,
    ensures
        ({
            let i = crate::wire::scan_bulk(s, budget)->Some_0;
            &&& i <= s.len()
            &&& esc_clean(s.take(i as int))
            &&& unescape(s.take(i as int)).len() <= budget
            &&& match scan_to_end(s.skip(i as int), ARRAY_DELIMIT) {
                Option::Some(k) => scan_to_end(s, ARRAY_DELIMIT) == Some((i + k) as nat),
                Option::None => scan_to_end(s, ARRAY_DELIMIT) is None,
            }
            &&& (i < s.len() && s[i as int] != ARRAY_DELIMIT ==> unescape(s.take(i as int)).len()
                == budget)
        }),
    decreases s.len(),
{
    let i = crate::wire::scan_bulk(s, budget)->Some_0;
    if budget == 0 {
        assert(i == 0);
        assert(s.take(0) =~= Seq::<u8>::empty());
        assert(s.skip(0) =~= s);
    } else if s.len() == 0 {
    } else if s[0] == ARRAY_DELIMIT {
        assert(i == 0);
        assert(s.take(0) =~= Seq::<u8>::empty());
        assert(s.skip(0) =~= s);
    } else if s[0] == ESCAPE {
        assert(s.len() >= 2);
        lemma_scan_bulk_stop(s.skip(2), (budget - 1) as nat);
        let i2 = crate::wire::scan_bulk(s.skip(2), (budget - 1) as nat)->Some_0;
        assert(i == i2 + 2);
        let unit = seq![ESCAPE, s[1]];
        assert(s.take(i as int) =~= unit + s.skip(2).take(i2 as int));
        assert(unit.skip(2) =~= Seq::<u8>::empty());
        assert(esc_clean(Seq::<u8>::empty()));
        assert(unescape(Seq::<u8>::empty()) == Seq::<u8>::empty());
        assert(esc_clean(unit));
        lemma_esc_clean_append(unit, s.skip(2).take(i2 as int));
        lemma_unescape_append_clean(unit, s.skip(2).take(i2 as int));
        assert(unescape(unit) =~= seq![s[1]]);
        assert(s.skip(i as int) =~= s.skip(2).skip(i2 as int));
        assert(s[0] != ARRAY_DELIMIT);
        match scan_to_end(s.skip(2).skip(i2 as int), ARRAY_DELIMIT) {
            Option::Some(k) => {
                assert(scan_to_end(s.skip(2), ARRAY_DELIMIT) == Some((i2 + k) as nat));
            },
            Option::None => {},
        }
        if i < s.len() && s[i as int] != ARRAY_DELIMIT {
            assert(s.skip(2)[i2 as int] == s[i as int]);
        }
    } else {
        lemma_scan_bulk_stop(s.skip(1), (budget - 1) as nat);
        let i2 = crate::wire::scan_bulk(s.skip(1), (budget - 1) as nat)->Some_0;
        assert(i == i2 + 1);
        let unit = seq![s[0]];
        assert(s.take(i as int) =~= unit + s.skip(1).take(i2 as int));
        assert(unit.skip(1) =~= Seq::<u8>::empty());
        assert(esc_clean(Seq::<u8>::empty()));
        assert(unescape(Seq::<u8>::empty()) == Seq::<u8>::empty());
        assert(esc_clean(unit));
        lemma_esc_clean_append(unit, s.skip(1).take(i2 as int));
        lemma_unescape_append_clean(unit, s.skip(1).take(i2 as int));
        assert(unescape(unit) =~= seq![s[0]]);
        assert(s.skip(i as int) =~= s.skip(1).skip(i2 as int));
        match scan_to_end(s.skip(1).skip(i2 as int), ARRAY_DELIMIT) {
            Option::Some(k) => {
                assert(scan_to_end(s.skip(1), ARRAY_DELIMIT) == Some((i2 + k) as nat));
            },
            Option::None => {},
        }
        if i < s.len() && s[i as int] != ARRAY_DELIMIT {
            assert(s.skip(1)[i2 as int] == s[i as int]);
        }
    }
}

/// Fixed-width runs split at a whole-run boundary.
pub proof fn lemma_be_chunks_concat(a: Seq<u8>, b: Seq<u8>, w: nat)
    requires
        w >= 1,
        a.len() % w == 0,
        b.len() % w == 0,
    ensures
        be_chunks(a + b, w) == be_chunks(a, w) + be_chunks(b, w),
{
    let ab = a + b;
    let ca = be_chunks(a, w);
    let cb = be_chunks(b, w);
    let qa = a.len() as int / w as int;
    let qb = b.len() as int / w as int;
    vstd::arithmetic::div_mod::lemma_fundamental_div_mod(a.len() as int, w as int);
    vstd::arithmetic::div_mod::lemma_fundamental_div_mod(b.len() as int, w as int);
    assert(a.len() == qa * w && b.len() == qb * w);
    assert(ab.len() == (qa + qb) * w) by (nonlinear_arith)
        requires
            a.len() == qa * w,
            b.len() == qb * w,
            ab.len() == a.len() + b.len(),
    ;
    vstd::arithmetic::div_mod::lemma_div_multiples_vanish(qa + qb, w as int);
    vstd::arithmetic::div_mod::lemma_mod_multiples_basic(qa + qb, w as int);
    assert(ab.len() % w == 0 && ab.len() / w == qa + qb);
    assert(qa >= 0 && qb >= 0) by (nonlinear_arith)
        requires
            a.len() as int == qa * (w as int),
            b.len() as int == qb * (w as int),
            w >= 1,
    ;
    assert forall|j: int| 0 <= j < ab.len() / w implies #[trigger] be_chunks(ab, w)[j] == (ca
        + cb)[j] by {
        if j < a.len() / w {
            assert((j + 1) * w <= a.len() && j * w >= 0) by (nonlinear_arith)
                requires
                    w >= 1,
                    0 <= j < qa,
                    a.len() as int == qa * (w as int),
            ;
            assert(ab.subrange(j * w, (j + 1) * w) =~= a.subrange(j * w, (j + 1) * w)) by {
                assert(j * w + w == (j + 1) * w) by (nonlinear_arith);
                assert forall|t: int| 0 <= t < w implies #[trigger] ab.subrange(
                    j * w,
                    (j + 1) * w,
                )[t] == a.subrange(j * w, (j + 1) * w)[t] by {
                    assert(ab[j * w + t] == a[j * w + t]);
                }
            }
        } else {
            let j2 = j - qa;
            assert(j * w == a.len() + j2 * w && (j + 1) * w == a.len() + (j2 + 1) * w && j2 * w
                >= 0 && (j2 + 1) * w <= b.len() && j2 * w + w == (j2 + 1) * w && j * w + w == (j
                + 1) * w) by (nonlinear_arith)
                requires
                    w >= 1,
                    qa <= j < qa + qb,
                    j2 == j - qa,
                    a.len() as int == qa * (w as int),
                    b.len() as int == qb * (w as int),
            ;
            assert(ab.subrange(j * w, (j + 1) * w) =~= b.subrange(j2 * w, (j2 + 1) * w)) by {
                assert forall|t: int| 0 <= t < w implies #[trigger] ab.subrange(
                    j * w,
                    (j + 1) * w,
                )[t] == b.subrange(j2 * w, (j2 + 1) * w)[t] by {
                    assert(ab[j * w + t] == b[j2 * w + t]);
                }
            }
        }
    }
    assert(be_chunks(ab, w) =~= ca + cb);
}

/// One bulk fill is chunk-size independent: whatever element budget it
/// was given, it yields a prefix of the array's element run and leaves
/// the decoder exactly at the rest, so repeated fills with any budgets
/// concatenate to the same elements as one fill with a large budget.
#[verifier::rlimit(100)]
pub proof fn lemma_fill_step(s: Seq<u8>, w: nat, max: nat)
    requires
        w >= 1,
    ensures
        match crate::wire::fill_outcome(s, w, max) {
            Parsed::Found(p, n) => if p.1 {
                array_elems(s, w) == Parsed::<Seq<nat>>::Found(p.0, n)
            } else {
                match array_elems(s.skip(n as int), w) {
                    Parsed::Found(tl, m) => array_elems(s, w) == Parsed::<Seq<nat>>::Found(
                        p.0 + tl,
                        (n + m) as nat,
                    ),
                    Parsed::Short => array_elems(s, w) is Short,
                    Parsed::Fail(k) => array_elems(s, w) == Parsed::<Seq<nat>>::Fail(k),
                }
            },
            Parsed::Short => array_elems(s, w) is Short,
            Parsed::Fail(k) => array_elems(s, w) == Parsed::<Seq<nat>>::Fail(k) || array_elems(
                s,
                w,
            ) is Short,
        },
{
    match crate::wire::scan_bulk(s, max * w) {
        Option::None => {
            lemma_scan_bulk_exhausted(s, max * w);
        },
        Option::Some(i) => {
            lemma_scan_bulk_stop(s, max * w);
            let content = unescape(s.take(i as int));
            if content.len() % w != 0 {
                if i < s.len() && s[i as int] == ARRAY_DELIMIT {
                    assert(s.skip(i as int)[0] == ARRAY_DELIMIT);
                    assert(scan_to_end(s.skip(i as int), ARRAY_DELIMIT) == Some(0nat));
                    assert(scan_to_end(s, ARRAY_DELIMIT) == Some(i));
                } else if !(i < s.len()) {
                    assert(s.skip(i as int).len() == 0);
                    assert(scan_to_end(s.skip(i as int), ARRAY_DELIMIT) is None);
                } else {
                    assert(content.len() == max * w);
                    vstd::arithmetic::div_mod::lemma_mod_multiples_basic(max as int, w as int);
                    assert((max as int) * (w as int) == (max * w) as int) by (nonlinear_arith);
                    assert(false);
                }
            } else if s.skip(i as int).len() == 0 {
                assert(scan_to_end(s.skip(i as int), ARRAY_DELIMIT) is None);
            } else if s.skip(i as int)[0] == ARRAY_DELIMIT {
                assert(scan_to_end(s.skip(i as int), ARRAY_DELIMIT) == Some(0nat));
                assert(scan_to_end(s, ARRAY_DELIMIT) == Some(i));
            } else {
                assert(content.len() == max * w);
                assert(s.skip(i as int).skip(0) =~= s.skip(i as int));
                match scan_to_end(s.skip(i as int), ARRAY_DELIMIT) {
                    Option::Some(k) => {
                        assert(scan_to_end(s, ARRAY_DELIMIT) == Some((i + k) as nat));
                        crate::wire::lemma_scan_bound(s.skip(i as int), ARRAY_DELIMIT);
                        assert(i + k < s.len());
                        let whole = unescape(s.take((i + k) as int));
                        assert(s.take((i + k) as int) =~= s.take(i as int) + s.skip(
                            i as int,
                        ).take(k as int));
                        lemma_unescape_append_clean(
                            s.take(i as int),
                            s.skip(i as int).take(k as int),
                        );
                        let part = unescape(s.skip(i as int).take(k as int));
                        assert(whole == content + part);
                        vstd::arithmetic::div_mod::lemma_mod_multiples_vanish(
                            max as int,
                            part.len() as int,
                            w as int,
                        );
                        assert((w as int) * (max as int) + part.len() == whole.len())
                            by (nonlinear_arith)
                            requires
                                whole.len() == content.len() + part.len(),
                                content.len() == max * w,
                        ;
                        assert((whole.len() as int) % (w as int) == (part.len() as int) % (
                        w as int));
                        assert(whole.len() % w == part.len() % w);
                        if part.len() % w != 0 {
                        } else {
                            vstd::arithmetic::div_mod::lemma_mod_multiples_basic(
                                max as int,
                                w as int,
                            );
                            assert((max as int) * (w as int) == (max * w) as int)
                                by (nonlinear_arith);
                            assert(content.len() % w == 0);
                            lemma_be_chunks_concat(content, part, w);
                        }
                    },
                    Option::None => {},
                }
            }
        },
    }
}

/// Feeding the same bytes in different chunkings decodes identically:
/// a decoder's observable state is the concatenation of its chunks and
/// nothing else, so any two sources whose chunks flatten to the same
/// bytes parse to the same outcome.
pub proof fn lemma_chunking_immaterial(a: Seq<Vec<u8>>, b: Seq<Vec<u8>>)
    requires
        crate::wire::chunks_flat(a) == crate::wire::chunks_flat(b),
    ensures
        parse_value(crate::wire::chunks_flat(a)) == parse_value(crate::wire::chunks_flat(b)),
{
}

} // verus!
