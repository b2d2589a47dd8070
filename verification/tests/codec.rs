use tbon::constants::Type;
use tbon::de::Decoder;
use tbon::en::{encode, Encoder, StreamEncoder};
use tbon::value::Value;
use tbon::wire::ErrorKind;

fn roundtrip(v: Value) -> Value {
    let stream = encode(&v).unwrap();
    let mut d = Decoder::from_chunks(stream);
    let out = d.decode_value().unwrap();
    assert!(d.is_terminated());
    out
}

fn encoded_bytes(v: &Value) -> Vec<u8> {
    let stream = encode(v).unwrap();
    let mut flat = Vec::new();
    for chunk in stream {
        flat.extend(chunk);
    }
    flat
}

fn decode_bytes(bytes: Vec<u8>) -> Result<Value, tbon::de::Error> {
    let mut d = Decoder::from_chunks(vec![bytes]);
    d.decode_value()
}

#[test]
fn test_primitives() {
    assert_eq!(roundtrip(Value::Bool(true)), Value::Bool(true));
    assert_eq!(roundtrip(Value::Bool(false)), Value::Bool(false));

    for u in 0..66000u64 {
        assert_eq!(roundtrip(Value::U64(u)), Value::U64(u));
    }

    for i in -66000..66000i64 {
        assert_eq!(roundtrip(Value::I64(i)), Value::I64(i));
    }

    // Deterministic pseudo-random 32-bit float fractions in [1, 2).
    let mut state: u64 = 0x2545F4914F6CDD1D;
    for _ in 0..100000 {
        state = state.wrapping_mul(6364136223846793005).wrapping_add(1442695040888963407);
        let bits = (127u32 << 23) | ((state >> 41) as u32);
        let f = f32::from_bits(bits);
        let back = roundtrip(Value::F32Bits(f.to_bits()));
        match back {
            Value::F32Bits(b) => assert_eq!(f32::from_bits(b), f),
            other => panic!("unexpected value {:?}", other),
        }
    }
}

#[test]
fn test_boundary_scalars() {
    assert_eq!(roundtrip(Value::U8(0)), Value::U8(0));
    assert_eq!(roundtrip(Value::U8(u8::MAX)), Value::U8(u8::MAX));
    assert_eq!(roundtrip(Value::U16(u16::MAX)), Value::U16(u16::MAX));
    assert_eq!(roundtrip(Value::U32(u32::MAX)), Value::U32(u32::MAX));
    assert_eq!(roundtrip(Value::U64(u64::MAX)), Value::U64(u64::MAX));
    assert_eq!(roundtrip(Value::I8(i8::MIN)), Value::I8(i8::MIN));
    assert_eq!(roundtrip(Value::I8(-1)), Value::I8(-1));
    assert_eq!(roundtrip(Value::I16(i16::MIN)), Value::I16(i16::MIN));
    assert_eq!(roundtrip(Value::I32(i32::MIN)), Value::I32(i32::MIN));
    assert_eq!(roundtrip(Value::I64(i64::MIN)), Value::I64(i64::MIN));
    assert_eq!(roundtrip(Value::I64(-1)), Value::I64(-1));
    assert_eq!(roundtrip(Value::Nil), Value::Nil);

    // The exact wire form of one scalar: tag 9, one big-endian byte.
    assert_eq!(encoded_bytes(&Value::U8(7)), vec![9, 7]);
    assert_eq!(encoded_bytes(&Value::U16(0x1234)), vec![10, 0x12, 0x34]);
    assert_eq!(
        encoded_bytes(&Value::U64(0x0102030405060708)),
        vec![12, 1, 2, 3, 4, 5, 6, 7, 8]
    );
}

#[test]
fn test_undefined_numbers() {
    match roundtrip(Value::F32Bits(f32::NAN.to_bits())) {
        Value::F32Bits(b) => assert!(f32::from_bits(b).is_nan()),
        other => panic!("unexpected value {:?}", other),
    }
    match roundtrip(Value::F32Bits(f32::INFINITY.to_bits())) {
        Value::F32Bits(b) => {
            let f = f32::from_bits(b);
            assert!(f.is_infinite() && f.is_sign_positive());
        }
        other => panic!("unexpected value {:?}", other),
    }
    match roundtrip(Value::F32Bits(f32::NEG_INFINITY.to_bits())) {
        Value::F32Bits(b) => {
            let f = f32::from_bits(b);
            assert!(f.is_infinite() && f.is_sign_negative());
        }
        other => panic!("unexpected value {:?}", other),
    }
    match roundtrip(Value::F64Bits(f64::NAN.to_bits())) {
        Value::F64Bits(b) => assert!(f64::from_bits(b).is_nan()),
        other => panic!("unexpected value {:?}", other),
    }
    match roundtrip(Value::F64Bits(f64::INFINITY.to_bits())) {
        Value::F64Bits(b) => {
            let f = f64::from_bits(b);
            assert!(f.is_infinite() && f.is_sign_positive());
        }
        other => panic!("unexpected value {:?}", other),
    }
    match roundtrip(Value::F64Bits(f64::NEG_INFINITY.to_bits())) {
        Value::F64Bits(b) => {
            let f = f64::from_bits(b);
            assert!(f.is_infinite() && f.is_sign_negative());
        }
        other => panic!("unexpected value {:?}", other),
    }
}

fn text(s: &str) -> Value {
    Value::Text(s.as_bytes().to_vec())
}

#[test]
fn test_strings() {
    for s in [
        "hello world",
        "Привет, мир",
        "this is a \"string\" within a \\ string",
        "this \"string\" is \\\terminated by a \\",
    ] {
        assert_eq!(roundtrip(text(s)), text(s));
    }
}

#[test]
fn test_string_control_bytes() {
    // Literal string-begin, string-end and escape bytes round-trip
    // exactly, and the wire holds one escape before each of them.
    let v = text("\"\\\"");
    assert_eq!(roundtrip(v), text("\"\\\""));
    let bytes = encoded_bytes(&text("\"\\\""));
    assert_eq!(
        bytes,
        vec![b'"', b'\\', b'"', b'\\', b'\\', b'\\', b'"', b'"']
    );
}

#[test]
fn test_compound() {
    let list = Value::List(vec![text("hello"), text("world")]);
    assert_eq!(roundtrip(list), Value::List(vec![text("hello"), text("world")]));

    let map = Value::Dict(vec![(Value::I32(-1), text("\' \"\"     "))]);
    assert_eq!(
        roundtrip(map),
        Value::Dict(vec![(Value::I32(-1), text("\' \"\"     "))])
    );

    let nested = Value::Dict(vec![
        (text("one"), Value::Dict(vec![])),
        (
            text("two"),
            Value::Dict(vec![(text("three"), Value::F32Bits(4f32.to_bits()))]),
        ),
    ]);
    let back = roundtrip(Value::Dict(vec![
        (text("one"), Value::Dict(vec![])),
        (
            text("two"),
            Value::Dict(vec![(text("three"), Value::F32Bits(4f32.to_bits()))]),
        ),
    ]));
    assert_eq!(back, nested);
}

#[test]
fn test_tuple() {
    let tuple = Value::List(vec![Value::ArrayU8(vec![]), Value::Dict(vec![])]);
    assert_eq!(
        roundtrip(tuple),
        Value::List(vec![Value::ArrayU8(vec![]), Value::Dict(vec![])])
    );

    let tuple = Value::List(vec![
        Value::Bool(true),
        Value::I16(-1),
        Value::F64Bits(3.14f64.to_bits()),
        text(" hello \"world\""),
        Value::ArrayU8((0..255).collect()),
    ]);
    let expected = Value::List(vec![
        Value::Bool(true),
        Value::I16(-1),
        Value::F64Bits(3.14f64.to_bits()),
        text(" hello \"world\""),
        Value::ArrayU8((0..255).collect()),
    ]);
    assert_eq!(roundtrip(tuple), expected);

    let tuple = Value::List(vec![
        Value::Bool(true),
        Value::List(vec![]),
        Value::Nil,
        Value::List(vec![]),
        Value::Bool(false),
    ]);
    let expected = Value::List(vec![
        Value::Bool(true),
        Value::List(vec![]),
        Value::Nil,
        Value::List(vec![]),
        Value::Bool(false),
    ]);
    assert_eq!(roundtrip(tuple), expected);
}

#[test]
fn test_array() {
    let data: Vec<i16> = (0..512).collect();
    let stream = encode(&Value::ArrayI16(data.clone())).unwrap();

    // Decode through repeated bounded buffer calls.
    let d = Decoder::from_chunks(stream);
    let mut access = d.begin_array(Type::I16).unwrap();
    let mut decoded: Vec<i16> = Vec::new();
    loop {
        let part = access.buffer_i16(100).unwrap();
        if part.is_empty() {
            break;
        }
        decoded.extend(part);
    }
    assert_eq!(decoded, data);
}

#[test]
fn test_array_chunk_size_independent() {
    // Bulk array round-trip is chunk-size independent: repeated
    // 100-element buffer calls, one 512-element call, and a whole-value
    // decode all agree with the source data.
    let data: Vec<i16> = (0..512).map(|x| (x * 7 - 300) as i16).collect();
    let stream = encode(&Value::ArrayI16(data.clone())).unwrap();

    let d = Decoder::from_chunks(stream.clone());
    let mut access = d.begin_array(Type::I16).unwrap();
    let mut by_hundreds: Vec<i16> = Vec::new();
    loop {
        let part = access.buffer_i16(100).unwrap();
        if part.is_empty() {
            break;
        }
        by_hundreds.extend(part);
    }

    let d = Decoder::from_chunks(stream.clone());
    let mut access = d.begin_array(Type::I16).unwrap();
    let at_once = access.buffer_i16(512).unwrap();
    assert!(access.is_complete());

    let mut d = Decoder::from_chunks(stream);
    let whole = d.decode_value().unwrap();

    assert_eq!(by_hundreds, data);
    assert_eq!(at_once, data);
    assert_eq!(whole, Value::ArrayI16(data));
}

#[test]
fn test_empty_containers() {
    // Empty list and map encode to begin+end alone; the empty bulk
    // array also carries its element tag.
    assert_eq!(encoded_bytes(&Value::List(vec![])), vec![b'[', b']']);
    assert_eq!(encoded_bytes(&Value::Dict(vec![])), vec![b'{', b'}']);
    assert_eq!(
        encoded_bytes(&Value::ArrayU16(vec![])),
        vec![b'=', 10, b'=']
    );
    assert_eq!(roundtrip(Value::List(vec![])), Value::List(vec![]));
    assert_eq!(roundtrip(Value::Dict(vec![])), Value::Dict(vec![]));
    assert_eq!(roundtrip(Value::ArrayU16(vec![])), Value::ArrayU16(vec![]));
}

#[test]
fn test_map_protocol_violation() {
    let stream = encode(&Value::Dict(vec![(text("k"), Value::U8(1))])).unwrap();
    let d = Decoder::from_chunks(stream);
    let mut access = d.begin_map().unwrap();

    // A value before any key is a misuse error.
    let err = access.next_value().unwrap_err();
    assert_eq!(err.kind(), ErrorKind::Misuse);

    // The misuse did not corrupt the decode: the entry still arrives.
    let key = access.next_key().unwrap().unwrap();
    assert_eq!(key, text("k"));

    // A key while its value is owed is a misuse error too.
    let err = access.next_key().unwrap_err();
    assert_eq!(err.kind(), ErrorKind::Misuse);

    let value = access.next_value().unwrap();
    assert_eq!(value, Value::U8(1));
    assert!(access.is_complete());

    // A value after the previous one, with no key between, misuses again.
    let err = access.next_value().unwrap_err();
    assert_eq!(err.kind(), ErrorKind::Misuse);
    assert_eq!(access.next_key().unwrap(), None);
}

#[test]
fn test_encoder_protocol_violation() {
    let mut m = Encoder.encode_map(None).unwrap();
    let err = m.encode_value(encode(&Value::U8(1)).unwrap()).unwrap_err();
    assert_eq!(err.kind(), ErrorKind::Misuse);
    m.encode_key(encode(&text("k")).unwrap()).unwrap();
    let err = m.encode_key(encode(&text("j")).unwrap()).unwrap_err();
    assert_eq!(err.kind(), ErrorKind::Misuse);
    m.encode_value(encode(&Value::U8(1)).unwrap()).unwrap();
    let stream = m.end().unwrap();
    let mut flat = Vec::new();
    for chunk in stream {
        flat.extend(chunk);
    }
    assert_eq!(decode_bytes(flat).unwrap(), Value::Dict(vec![(text("k"), Value::U8(1))]));

    let mut m = Encoder.encode_map(None).unwrap();
    m.encode_key(encode(&text("k")).unwrap()).unwrap();
    let err = m.end().unwrap_err();
    assert_eq!(err.kind(), ErrorKind::Misuse);
}

#[test]
fn test_partial_chunk_resilience() {
    // A payload split into 1-byte chunks decodes to the identical
    // result as the payload fed whole.
    let v = Value::Dict(vec![
        (text("xs"), Value::ArrayI16(vec![-1, 61, 92, 300])),
        (text("note"), text("a \"quoted\" \\ string")),
        (text("n"), Value::U64(0x0102030405060708)),
    ]);
    let flat = encoded_bytes(&v);

    let single = decode_bytes(flat.clone()).unwrap();
    let tiny: Vec<Vec<u8>> = flat.iter().map(|b| vec![*b]).collect();
    let mut d = Decoder::from_chunks(tiny);
    let bytewise = d.decode_value().unwrap();

    assert_eq!(single, bytewise);
    assert_eq!(single, v);
}

#[test]
fn test_truncated_input() {
    // Removing the final end delimiter yields the unexpected-end
    // error, never a silent partial result.
    for v in [
        Value::Dict(vec![(text("k"), Value::U16(7))]),
        Value::List(vec![Value::U8(1), Value::U8(2)]),
        Value::ArrayI16(vec![1, 2, 3]),
        text("hello"),
    ] {
        let mut flat = encoded_bytes(&v);
        flat.pop();
        let err = decode_bytes(flat).unwrap_err();
        assert_eq!(err.kind(), ErrorKind::UnexpectedEnd);
    }
}

#[test]
fn test_error_variants() {
    // A leading byte outside tags and delimiters.
    let err = decode_bytes(vec![200]).unwrap_err();
    assert_eq!(err.kind(), ErrorKind::UnknownTypeTag);

    // The wrong tag at a typed decode.
    let mut d = Decoder::from_chunks(vec![vec![10, 0, 7]]);
    let err = d.decode_u8().unwrap_err();
    assert_eq!(err.kind(), ErrorKind::UnexpectedDelimiter);

    // A scalar payload shorter than its width.
    let mut d = Decoder::from_chunks(vec![vec![10, 0]]);
    let err = d.decode_u16().unwrap_err();
    assert_eq!(err.kind(), ErrorKind::InvalidLength);

    // A boolean payload byte that is neither 0 nor 1.
    let mut d = Decoder::from_chunks(vec![vec![2, 2]]);
    let err = d.decode_bool().unwrap_err();
    assert_eq!(err.kind(), ErrorKind::InvalidValue);

    // String content that is not valid UTF-8.
    let err = decode_bytes(vec![b'"', 0xFF, 0xFE, b'"']).unwrap_err();
    assert_eq!(err.kind(), ErrorKind::InvalidUtf8);

    // An adopted error keeps its kind and message.
    let e = tbon::de::Error::custom(String::from("io failure"));
    assert_eq!(e.kind(), ErrorKind::Custom);
    assert_eq!(e.message(), "io failure");
}

#[test]
fn test_escape_wrapper() {
    let control = [b'"'];
    let escaped = Encoder.escape(b"a\"b\\c", &control);
    assert_eq!(escaped, vec![b'a', b'\\', b'"', b'b', b'\\', b'\\', b'c']);

    let control = [b'='];
    let escaped = Encoder.escape(b"=x", &control);
    assert_eq!(escaped, vec![b'\\', b'=', b'x']);
}

#[test]
fn test_bulk_array_escaping() {
    // Element bytes equal to the array delimiter or the escape byte
    // are escaped on the wire and recovered exactly.
    let data = vec![61u8, 92, 61, 7];
    let bytes = encoded_bytes(&Value::ArrayU8(data.clone()));
    assert_eq!(
        bytes,
        vec![b'=', 9, b'\\', 61, b'\\', 92, b'\\', 61, 7, b'=']
    );
    assert_eq!(roundtrip(Value::ArrayU8(data.clone())), Value::ArrayU8(data));
}

#[test]
fn test_all_array_kinds() {
    assert_eq!(
        roundtrip(Value::ArrayBool(vec![true, false, true])),
        Value::ArrayBool(vec![true, false, true])
    );
    assert_eq!(roundtrip(Value::ArrayU8(vec![0, 255])), Value::ArrayU8(vec![0, 255]));
    assert_eq!(
        roundtrip(Value::ArrayU16(vec![0, u16::MAX])),
        Value::ArrayU16(vec![0, u16::MAX])
    );
    assert_eq!(
        roundtrip(Value::ArrayU32(vec![0, u32::MAX])),
        Value::ArrayU32(vec![0, u32::MAX])
    );
    assert_eq!(
        roundtrip(Value::ArrayU64(vec![0, u64::MAX])),
        Value::ArrayU64(vec![0, u64::MAX])
    );
    assert_eq!(
        roundtrip(Value::ArrayI8(vec![i8::MIN, -1, i8::MAX])),
        Value::ArrayI8(vec![i8::MIN, -1, i8::MAX])
    );
    assert_eq!(
        roundtrip(Value::ArrayI16(vec![i16::MIN, -1, i16::MAX])),
        Value::ArrayI16(vec![i16::MIN, -1, i16::MAX])
    );
    assert_eq!(
        roundtrip(Value::ArrayI32(vec![i32::MIN, -1, i32::MAX])),
        Value::ArrayI32(vec![i32::MIN, -1, i32::MAX])
    );
    assert_eq!(
        roundtrip(Value::ArrayI64(vec![i64::MIN, -1, i64::MAX])),
        Value::ArrayI64(vec![i64::MIN, -1, i64::MAX])
    );
    let f32s: Vec<u32> = [0.0f32, -1.5, f32::INFINITY].iter().map(|f| f.to_bits()).collect();
    assert_eq!(roundtrip(Value::ArrayF32Bits(f32s.clone())), Value::ArrayF32Bits(f32s));
    let f64s: Vec<u64> = [0.0f64, 2.75, f64::NEG_INFINITY].iter().map(|f| f.to_bits()).collect();
    assert_eq!(roundtrip(Value::ArrayF64Bits(f64s.clone())), Value::ArrayF64Bits(f64s));
}

#[test]
fn test_typed_scalar_decoders() {
    let mut d = Decoder::from_chunks(vec![encoded_bytes(&Value::U16(0xBEEF))]);
    assert_eq!(d.decode_u16().unwrap(), 0xBEEF);
    let mut d = Decoder::from_chunks(vec![encoded_bytes(&Value::I32(-77))]);
    assert_eq!(d.decode_i32().unwrap(), -77);
    let mut d = Decoder::from_chunks(vec![encoded_bytes(&Value::Bool(true))]);
    assert_eq!(d.decode_bool().unwrap(), true);
    let mut d = Decoder::from_chunks(vec![encoded_bytes(&Value::F64Bits(6.5f64.to_bits()))]);
    assert_eq!(f64::from_bits(d.decode_f64_bits().unwrap()), 6.5);
    let mut d = Decoder::from_chunks(vec![encoded_bytes(&Value::Nil)]);
    d.parse_unit().unwrap();
}

#[test]
fn test_decode_option() {
    let mut d = Decoder::from_chunks(vec![encoded_bytes(&Value::Nil)]);
    assert_eq!(d.decode_option().unwrap(), None);
    let mut d = Decoder::from_chunks(vec![encoded_bytes(&Value::U8(3))]);
    assert_eq!(d.decode_option().unwrap(), Some(Value::U8(3)));
}

#[test]
fn test_decode_ignored_any() {
    // Skip a nested value, then decode what follows it.
    let skipped = Value::Dict(vec![(text("deep"), Value::List(vec![Value::U8(1)]))]);
    let mut flat = encoded_bytes(&skipped);
    flat.extend(encoded_bytes(&Value::U16(99)));
    let mut d = Decoder::from_chunks(vec![flat]);
    d.decode_ignored_any().unwrap();
    assert_eq!(d.decode_value().unwrap(), Value::U16(99));
}

#[test]
fn test_sequence_access() {
    let stream = encode(&Value::List(vec![Value::U8(1), text("two"), Value::Nil])).unwrap();
    let d = Decoder::from_chunks(stream);
    let mut access = d.begin_seq().unwrap();
    assert_eq!(access.size_hint(), None);
    assert_eq!(access.next_element().unwrap(), Some(Value::U8(1)));
    assert_eq!(access.next_element().unwrap(), Some(text("two")));
    assert_eq!(access.next_element().unwrap(), Some(Value::Nil));
    assert!(access.is_complete());
    assert_eq!(access.next_element().unwrap(), None);
}

#[test]
fn test_stream_encoder_matches_eager() {
    // The lazy pull-driven form emits the same bytes as the eager form.
    let items = vec![Value::U8(1), text("x"), Value::List(vec![])];

    let mut lazy = StreamEncoder::for_list();
    let mut lazy_flat = Vec::new();
    for item in &items {
        for chunk in lazy.next_item(encode(item).unwrap()) {
            lazy_flat.extend(chunk);
        }
    }
    for chunk in lazy.finish() {
        lazy_flat.extend(chunk);
    }

    let mut eager = Encoder.encode_seq(None).unwrap();
    let eager_flat = {
        for item in &items {
            eager.encode_element(encode(item).unwrap()).unwrap();
        }
        let mut flat = Vec::new();
        for chunk in eager.end().unwrap() {
            flat.extend(chunk);
        }
        flat
    };

    assert_eq!(lazy_flat, eager_flat);
    assert_eq!(lazy_flat, encoded_bytes(&Value::List(items)));

    // An empty lazy map still emits its framing.
    let mut lazy = StreamEncoder::for_map();
    let mut flat = Vec::new();
    for chunk in lazy.finish() {
        flat.extend(chunk);
    }
    assert_eq!(flat, vec![b'{', b'}']);
}

#[test]
fn test_map_encoder_stream_entries() {
    let mut lazy = StreamEncoder::for_map();
    let mut flat = Vec::new();
    for chunk in lazy.next_entry(encode(&text("a")).unwrap(), encode(&Value::U8(1)).unwrap()) {
        flat.extend(chunk);
    }
    for chunk in lazy.finish() {
        flat.extend(chunk);
    }
    assert_eq!(
        decode_bytes(flat).unwrap(),
        Value::Dict(vec![(text("a"), Value::U8(1))])
    );
}

#[test]
fn test_tag_table() {
    assert_eq!(Type::Nil.to_tag(), 1);
    assert_eq!(Type::Bool.to_tag(), 2);
    assert_eq!(Type::U64.to_tag(), 12);
    assert_eq!(Type::lookup_tag(5), Some(Type::I8));
    assert_eq!(Type::lookup_tag(0), None);
    assert_eq!(Type::lookup_tag(13), None);
    assert_eq!(Type::U16.byte_width(), 2);
    assert_eq!(Type::F64.byte_width(), 8);
    assert_eq!(Type::Nil.byte_width(), 0);
    assert_eq!(Type::I32.name(), "32-bit int");
}

#[test]
fn test_contents_snippet() {
    let mut d = Decoder::from_chunks(vec![vec![2, 200, b'A']]);
    // A failed boolean decode consumes the tag but leaves the rest
    // buffered for diagnostics.
    let err = d.decode_bool().unwrap_err();
    assert_eq!(err.kind(), ErrorKind::InvalidValue);
    assert_eq!(d.contents(10), "A");
}
