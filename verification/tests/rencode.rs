use unify::rencode::{decode, encode, Decoder, Encoder, Float, Int, Object};

fn encode_one(obj: Object) -> Vec<u8> {
    Encoder::new().into_bytes(obj).unwrap()
}

#[test]
fn embedded_positive_boundary() {
    // 43 is the last value that embeds into a single token byte.
    assert_eq!(encode_one(Object::Int(Int::I8(43))), vec![43u8]);
    // 44 must use the explicit one-byte form.
    assert_eq!(encode_one(Object::Int(Int::I8(44))), vec![62u8, 44u8]);
}

#[test]
fn embedded_negative_boundary() {
    // -32 embeds: token 70 - 1 - (-32) = 101.
    assert_eq!(encode_one(Object::Int(Int::I8(-32))), vec![101u8]);
    // -33 needs the explicit form; -33 as two's complement is 223.
    assert_eq!(encode_one(Object::Int(Int::I8(-33))), vec![62u8, 223u8]);
    // -1 is the first embedded negative: token 70.
    assert_eq!(encode_one(Object::Int(Int::I8(-1))), vec![70u8]);
}

#[test]
fn embedded_decode() {
    assert_eq!(decode(vec![43u8]), Some(Object::Int(Int::I8(43))));
    assert_eq!(decode(vec![101u8]), Some(Object::Int(Int::I8(-32))));
    assert_eq!(decode(vec![70u8]), Some(Object::Int(Int::I8(-1))));
}

#[test]
fn concrete_scenarios() {
    // Encoding the integer 5 produces the single byte 5.
    assert_eq!(encode_one(Object::Int(Int::I8(5))), vec![5u8]);
    // Encoding "hi" produces 128+2 then the raw bytes.
    assert_eq!(
        encode_one(Object::Str(String::from("hi"))),
        vec![130u8, b'h', b'i']
    );
    // An empty list is the single byte 192.
    assert_eq!(encode_one(Object::List(Vec::new())), vec![192u8]);
    // Decoding [192] yields an empty list.
    assert_eq!(decode(vec![192u8]), Some(Object::List(Vec::new())));
}

#[test]
fn width_tags_are_preserved() {
    // An I16 holding 3 keeps its two-byte form.
    assert_eq!(encode_one(Object::Int(Int::I16(3))), vec![63u8, 0, 3]);
    assert_eq!(encode_one(Object::Int(Int::I32(3))), vec![64u8, 0, 0, 0, 3]);
    assert_eq!(
        encode_one(Object::Int(Int::I64(3))),
        vec![65u8, 0, 0, 0, 0, 0, 0, 0, 3]
    );
    assert_eq!(decode(vec![63u8, 0, 3]), Some(Object::Int(Int::I16(3))));
    assert_eq!(
        decode(vec![65u8, 0, 0, 0, 0, 0, 0, 0, 3]),
        Some(Object::Int(Int::I64(3)))
    );
}

#[test]
fn negative_explicit_ints() {
    assert_eq!(encode_one(Object::Int(Int::I16(-2))), vec![63u8, 0xFF, 0xFE]);
    assert_eq!(decode(vec![63u8, 0xFF, 0xFE]), Some(Object::Int(Int::I16(-2))));
    assert_eq!(
        decode(vec![65u8, 0xFF, 0xFF, 0xFF, 0xFF, 0xFF, 0xFF, 0xFF, 0xFF]),
        Some(Object::Int(Int::I64(-1)))
    );
}

fn int_list(n: usize) -> Vec<Object> {
    (0..n).map(|_| Object::Int(Int::I8(1))).collect()
}

#[test]
fn fixed_vs_sentinel_list_boundary() {
    // Exactly 63 elements: fixed single-byte-count form.
    let bytes63 = encode_one(Object::List(int_list(63)));
    assert_eq!(bytes63[0], 192 + 63);
    assert_eq!(bytes63.len(), 64);
    // 64 elements: sentinel-terminated form with trailing byte 127.
    let bytes64 = encode_one(Object::List(int_list(64)));
    assert_eq!(bytes64[0], 59);
    assert_eq!(*bytes64.last().unwrap(), 127);
    assert_eq!(bytes64.len(), 66);
    assert_eq!(decode(bytes64), Some(Object::List(int_list(64))));
}

#[test]
fn string_classification() {
    // Valid UTF-8 decodes as a string.
    assert_eq!(
        decode(vec![130u8, b'h', b'i']),
        Some(Object::Str(String::from("hi")))
    );
    // A lone 0xFF is not UTF-8 and comes back as bytes, content intact.
    assert_eq!(decode(vec![129u8, 0xFF]), Some(Object::Bytes(vec![0xFF])));
}

#[test]
fn bytes_round_trip() {
    let raw = Object::Bytes(vec![0xFF, 0xFE, 0x00]);
    let bytes = encode_one(raw);
    assert_eq!(bytes, vec![131u8, 0xFF, 0xFE, 0x00]);
    assert_eq!(decode(bytes), Some(Object::Bytes(vec![0xFF, 0xFE, 0x00])));
}

#[test]
fn long_string_uses_decimal_length() {
    let text: String = std::iter::repeat('a').take(70).collect();
    let bytes = encode_one(Object::Str(text.clone()));
    assert_eq!(&bytes[0..3], &[b'7', b'0', b':']);
    assert_eq!(bytes.len(), 73);
    assert_eq!(decode(bytes), Some(Object::Str(text)));
}

#[test]
fn map_key_rejection() {
    // A fixed dict of one entry whose key position holds the boolean-true
    // token fails the whole decode.
    assert_eq!(decode(vec![103u8, 67u8, 5u8]), None);
    // The same with a sentinel dict.
    assert_eq!(decode(vec![60u8, 67u8, 5u8, 127u8]), None);
    // A key that is a byte string rather than UTF-8 text also fails.
    assert_eq!(decode(vec![103u8, 129u8, 0xFF, 5u8]), None);
}

#[test]
fn map_round_trip() {
    let map = Object::Dict(vec![
        (String::from("a"), Object::Int(Int::I8(1))),
        (String::from("b"), Object::Str(String::from("x"))),
    ]);
    let bytes = encode_one(map);
    assert_eq!(bytes[0], 102 + 2);
    let expected = Object::Dict(vec![
        (String::from("a"), Object::Int(Int::I8(1))),
        (String::from("b"), Object::Str(String::from("x"))),
    ]);
    assert_eq!(decode(bytes), Some(expected));
}

#[test]
fn large_map_uses_sentinel() {
    let mut entries: Vec<(String, Object)> = Vec::new();
    for i in 0..25 {
        entries.push((format!("k{}", i), Object::Int(Int::I8(1))));
    }
    let bytes = encode_one(Object::Dict(entries));
    assert_eq!(bytes[0], 60);
    assert_eq!(*bytes.last().unwrap(), 127);
}

#[test]
fn duplicate_keys_keep_last_value() {
    // key "a" appears twice; the later value replaces the earlier one.
    let bytes = vec![104u8, 129, b'a', 5, 129, b'a', 6];
    let expected = Object::Dict(vec![(String::from("a"), Object::Int(Int::I8(6)))]);
    assert_eq!(decode(bytes), Some(expected));
}

#[test]
fn floats_round_trip_by_bits() {
    let f32bits = 1.5f32.to_bits();
    let bytes = encode_one(Object::Float(Float::F32(f32bits)));
    assert_eq!(bytes, vec![66u8, 0x3F, 0xC0, 0x00, 0x00]);
    assert_eq!(decode(bytes), Some(Object::Float(Float::F32(f32bits))));

    let f64bits = (-2.25f64).to_bits();
    let bytes64 = encode_one(Object::Float(Float::F64(f64bits)));
    assert_eq!(bytes64[0], 44);
    assert_eq!(bytes64.len(), 9);
    assert_eq!(decode(bytes64), Some(Object::Float(Float::F64(f64bits))));
}

#[test]
fn terminated_number_token() {
    // Digits up to the terminator parse as a 64-bit integer.
    assert_eq!(
        decode(vec![61u8, b'5', b'3', 127]),
        Some(Object::Int(Int::I64(53)))
    );
    assert_eq!(
        decode(vec![61u8, b'-', b'7', 127]),
        Some(Object::Int(Int::I64(-7)))
    );
    // A decimal point switches to a 64-bit float.
    assert_eq!(
        decode(vec![61u8, b'3', b'.', b'5', 127]),
        Some(Object::Float(Float::F64(3.5f64.to_bits())))
    );
    // Non-numeric content fails the decode.
    assert_eq!(decode(vec![61u8, b'x', 127]), None);
    // A missing terminator fails the decode.
    assert_eq!(decode(vec![61u8, b'5']), None);
}

#[test]
fn bools_round_trip() {
    assert_eq!(encode_one(Object::Bool(true)), vec![67u8]);
    assert_eq!(encode_one(Object::Bool(false)), vec![68u8]);
    assert_eq!(decode(vec![67u8]), Some(Object::Bool(true)));
    assert_eq!(decode(vec![68u8]), Some(Object::Bool(false)));
}

#[test]
fn malformed_inputs_fail() {
    // Empty input.
    assert_eq!(decode(Vec::new()), None);
    // Unknown leading tokens.
    assert_eq!(decode(vec![46u8]), None);
    assert_eq!(decode(vec![127u8]), None);
    assert_eq!(decode(vec![69u8]), None);
    // Truncated fixed-width payloads.
    assert_eq!(decode(vec![66u8, 0, 0]), None);
    assert_eq!(decode(vec![63u8, 1]), None);
    assert_eq!(decode(vec![65u8, 1, 2, 3]), None);
    // Truncated string payload.
    assert_eq!(decode(vec![131u8, b'a']), None);
    // Truncated containers.
    assert_eq!(decode(vec![194u8, 5]), None);
    assert_eq!(decode(vec![59u8, 5]), None);
    // A length-prefixed string may not begin with the digit zero.
    assert_eq!(decode(vec![b'0', b':', b'a']), None);
}

#[test]
fn trailing_bytes_are_ignored() {
    assert_eq!(decode(vec![5u8, 99, 98]), Some(Object::Int(Int::I8(5))));
}

#[test]
fn nested_round_trip() {
    let value = Object::Dict(vec![
        (
            String::from("list"),
            Object::List(vec![
                Object::Int(Int::I8(1)),
                Object::Int(Int::I16(300)),
                Object::Bool(true),
                Object::Str(String::from("deep")),
            ]),
        ),
        (String::from("blob"), Object::Bytes(vec![0x80, 0x81])),
        (String::from("f"), Object::Float(Float::F64(0.5f64.to_bits()))),
    ]);
    let bytes = encode_one(value);
    let expected = Object::Dict(vec![
        (
            String::from("list"),
            Object::List(vec![
                Object::Int(Int::I8(1)),
                Object::Int(Int::I16(300)),
                Object::Bool(true),
                Object::Str(String::from("deep")),
            ]),
        ),
        (String::from("blob"), Object::Bytes(vec![0x80, 0x81])),
        (String::from("f"), Object::Float(Float::F64(0.5f64.to_bits()))),
    ]);
    assert_eq!(decode(bytes), Some(expected));
}

#[test]
fn encode_wraps_twice() {
    // The wire form wraps the items in a list inside another list.
    let bytes = encode(vec![Object::Int(Int::I8(5))]).unwrap();
    assert_eq!(bytes, vec![193u8, 193u8, 5u8]);
    let back = decode(bytes).unwrap();
    assert_eq!(
        back,
        Object::List(vec![Object::List(vec![Object::Int(Int::I8(5))])])
    );
}

#[test]
fn decoder_consumes_one_value_per_call() {
    let mut d = Decoder::new(vec![5u8, 67u8]);
    assert_eq!(d.decode_next(), Some(Object::Int(Int::I8(5))));
    assert_eq!(d.decode_next(), Some(Object::Bool(true)));
    assert_eq!(d.decode_next(), None);
}

#[test]
fn encoder_methods_append() {
    let mut e = Encoder::new();
    e.encode_bool(true).unwrap();
    e.encode_int(Int::I8(5)).unwrap();
    e.encode_string(String::from("hi")).unwrap();
    let bytes = e.into_bytes(Object::Bool(false)).unwrap();
    assert_eq!(bytes, vec![67u8, 5u8, 130u8, b'h', b'i', 68u8]);
}

#[test]
fn encode_map_and_list_methods() {
    let mut e = Encoder::new();
    e.encode_map(vec![(String::from("k"), Object::Int(Int::I8(2)))])
        .unwrap();
    let bytes = e.into_bytes(Object::List(vec![Object::Bool(true)])).unwrap();
    assert_eq!(bytes, vec![103u8, 129u8, b'k', 2u8, 193u8, 67u8]);
}

#[test]
fn encode_string_bytes_matches_string() {
    let mut e1 = Encoder::new();
    e1.encode_string_bytes(vec![b'h', b'i']).unwrap();
    let mut e2 = Encoder::new();
    e2.encode_string(String::from("hi")).unwrap();
    let b1 = e1.into_bytes(Object::Bool(true)).unwrap();
    let b2 = e2.into_bytes(Object::Bool(true)).unwrap();
    assert_eq!(b1, b2);
}

#[test]
fn empty_sentinel_containers() {
    assert_eq!(decode(vec![59u8, 127u8]), Some(Object::List(Vec::new())));
    assert_eq!(decode(vec![60u8, 127u8]), Some(Object::Dict(Vec::new())));
    assert_eq!(decode(vec![102u8]), Some(Object::Dict(Vec::new())));
}

#[test]
fn fixed_vs_sentinel_dict_boundary() {
    let mut entries24: Vec<(String, Object)> = Vec::new();
    for i in 0..24 {
        entries24.push((format!("k{}", i), Object::Bool(true)));
    }
    let bytes24 = encode_one(Object::Dict(entries24));
    assert_eq!(bytes24[0], 102 + 24);
    assert_ne!(*bytes24.last().unwrap(), 127);
}

#[test]
fn malformed_lengths_and_numbers() {
    // An empty terminated number is not a number.
    assert_eq!(decode(vec![61u8, 127u8]), None);
    // A lone sign is not a number.
    assert_eq!(decode(vec![61u8, b'-', 127u8]), None);
    // A decimal length too large for the machine fails the decode.
    let mut huge: Vec<u8> = b"99999999999999999999999:".to_vec();
    huge.push(b'a');
    assert_eq!(decode(huge), None);
    // A declared length longer than the remaining input fails the decode.
    assert_eq!(decode(b"70:abc".to_vec()), None);
    // Digits with no colon fail the decode.
    assert_eq!(decode(b"70".to_vec()), None);
}

#[test]
fn number_token_terminator_is_consumed() {
    let mut d = Decoder::new(vec![61u8, b'7', 127u8, 67u8]);
    assert_eq!(d.decode_next(), Some(Object::Int(Int::I64(7))));
    assert_eq!(d.decode_next(), Some(Object::Bool(true)));
}
