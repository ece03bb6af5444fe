use serde_cbor::de::Deserializer;
use serde_cbor::error::ErrorCode;
use serde_cbor::ser::{Float, Serializer};
use serde_cbor::value::{from_deserializer, Value};
use serde_cbor::write::SliceWrite;
use serde_cbor::{from_mut_slice, from_reader, from_slice, to_vec, to_vec_packed, to_writer};

fn sample() -> Value {
    Value::Mapping(vec![
        (Value::Text("null".to_string()), Value::Null),
        (Value::Text("flags".to_string()), Value::Array(vec![Value::Bool(true), Value::Bool(false)])),
        (
            Value::Integer(-7),
            Value::Array(vec![
                Value::Integer(0),
                Value::Integer(23),
                Value::Integer(24),
                Value::Integer(-24),
                Value::Integer(-25),
                Value::Integer(65535),
                Value::Integer(65536),
                Value::Integer(4294967296),
                Value::Integer(18446744073709551615),
                Value::Integer(-18446744073709551616),
            ]),
        ),
        (
            Value::Bytes(vec![0, 255, 1]),
            Value::Array(vec![
                Value::Float(Float::Half(0x3c00)),
                Value::Float(Float::Single(0x3dcc_cccd)),
                Value::Float(Float::Double(0x3fb9_9999_9999_999a)),
            ]),
        ),
        (Value::Array(vec![]), Value::Mapping(vec![])),
        (Value::Text("gr\u{fc}\u{df}e \u{1f600}".to_string()), Value::Text(String::new())),
        (Value::Bool(true), Value::Bytes(vec![7; 300])),
    ])
}

#[test]
fn a_value_comes_back_as_it_was() {
    let bytes = to_vec(&sample()).unwrap();
    assert_eq!(from_slice(&bytes), Ok(sample()));
    assert_eq!(from_reader(bytes.clone()), Ok(sample()));
    let mut copy = bytes.clone();
    assert_eq!(from_mut_slice(&mut copy), Ok(sample()));
}

#[test]
fn a_tagged_value_comes_back_where_tags_are_kept() {
    let value = Value::Array(vec![
        Value::Tag(0, Box::new(Value::Text("2013-03-21T20:04:00Z".to_string()))),
        Value::Tag(1000000, Box::new(Value::Tag(2, Box::new(Value::Bytes(vec![1]))))),
    ]);
    let bytes = to_vec(&value).unwrap();
    assert_eq!(&bytes[..3], &[0x82, 0xc0, 0x74][..]);
    let mut de = Deserializer::from_slice(&bytes).keep_tags(true);
    assert_eq!(from_deserializer(&mut de), Ok(value));
    // Where tags are dropped, what comes back is the value without them.
    assert_eq!(
        from_slice(&bytes),
        Ok(Value::Array(vec![
            Value::Text("2013-03-21T20:04:00Z".to_string()),
            Value::Bytes(vec![1]),
        ]))
    );
}

#[test]
fn what_was_decoded_encodes_to_what_decodes_the_same() {
    // Heads wider than need be, lengths left open, strings in pieces, undefined.
    let input = [
        0x9fu8, 0x19, 0x00, 0x01, 0x5f, 0x41, 0x01, 0x41, 0x02, 0xff, 0x7f, 0x61, 0x61, 0xff, 0xbf, 0xf7, 0x1b, 0,
        0, 0, 0, 0, 0, 0, 2, 0xff, 0xff,
    ];
    let value = from_slice(&input).unwrap();
    let bytes = to_vec(&value).unwrap();
    assert_eq!(
        bytes,
        vec![0x84, 0x01, 0x42, 0x01, 0x02, 0x61, 0x61, 0xa1, 0xf6, 0x02]
    );
    assert_eq!(from_slice(&bytes), Ok(value));
}

#[test]
fn an_encoding_in_least_heads_is_kept() {
    let inputs: Vec<Vec<u8>> = vec![
        vec![0x18, 0xff],
        vec![0x66, 0x66, 0x6f, 0x6f, 0x62, 0x61, 0x72],
        vec![0xa1, 0x61, 0x61, 0x01],
        vec![0x3b, 0xff, 0xff, 0xff, 0xff, 0xff, 0xff, 0xff, 0xff],
        vec![0x83, 0xf4, 0xf6, 0xf9, 0x7e, 0x00],
    ];
    for input in inputs {
        let value = from_slice(&input).unwrap();
        assert_eq!(to_vec(&value), Ok(input));
    }
}

#[test]
fn a_value_without_an_encoding() {
    let message = ErrorCode::Message("The number can't be stored in CBOR".to_string());
    let value = Value::Array(vec![Value::Integer(1), Value::Integer(1 << 64)]);
    let e = to_vec(&value).unwrap_err();
    assert_eq!(e.code, message);
    assert_eq!(e.offset, 0);
    assert_eq!(to_vec_packed(&Value::Integer(-(1 << 64) - 1)).unwrap_err().code, message);
    let mut sink = Vec::new();
    assert_eq!(to_writer(&mut sink, &value).unwrap_err().code, message);
    assert!(sink.is_empty());
    let nested = Value::Mapping(vec![(Value::Tag(1, Box::new(Value::Integer(i128::MAX))), Value::Null)]);
    assert_eq!(to_vec(&nested).unwrap_err().code, message);
}

#[test]
fn packed_encoding_of_a_value_is_the_same() {
    assert_eq!(to_vec_packed(&sample()), to_vec(&sample()));
}

#[test]
fn a_value_goes_to_any_sink() {
    let mut sink = vec![0xffu8];
    to_writer(&mut sink, &Value::Array(vec![Value::Integer(1)])).unwrap();
    assert_eq!(sink, vec![0xff, 0x81, 0x01]);
    let mut buf = [0u8; 3];
    {
        let mut slice = SliceWrite::new(&mut buf);
        to_writer(&mut slice, &Value::Text("ab".to_string())).unwrap();
        let e = to_writer(&mut slice, &Value::Null).unwrap_err();
        assert_eq!(e.code, ErrorCode::ScratchTooSmall);
        assert_eq!(e.offset, 3);
    }
    assert_eq!(buf, [0x62, 0x61, 0x62]);
    let mut ser = Serializer::new(Vec::new());
    Value::Float(Float::Half(1)).serialize(&mut ser).unwrap();
    ser.serialize_value(&Value::Null).unwrap();
    assert_eq!(ser.into_inner(), vec![0xf9, 0x00, 0x01, 0xf6]);
}

#[test]
fn an_encoder_on_a_slice_fails_at_the_first_chunk_that_does_not_fit() {
    let mut buf = [0u8; 5];
    {
        let mut ser = Serializer::new(SliceWrite::new(&mut buf));
        let value = Value::Array(vec![Value::Integer(1), Value::Text("abcd".to_string()), Value::Integer(2)]);
        let e = ser.serialize_value(&value).unwrap_err();
        assert_eq!(e.code, ErrorCode::ScratchTooSmall);
        assert_eq!(e.offset, 3);
    }
    assert_eq!(&buf[..3], &[0x83, 0x01, 0x64][..]);
}

#[test]
fn nesting_up_to_the_limit_comes_back() {
    let mut value = Value::Integer(0);
    for _ in 0..127 {
        value = Value::Array(vec![value]);
    }
    let bytes = to_vec(&value).unwrap();
    assert_eq!(bytes.len(), 128);
    assert_eq!(from_slice(&bytes), Ok(value));
    let mut value = Value::Integer(0);
    for _ in 0..128 {
        value = Value::Array(vec![value]);
    }
    let bytes = to_vec(&value).unwrap();
    assert_eq!(from_slice(&bytes).unwrap_err().code, ErrorCode::RecursionLimitExceeded);
}

#[test]
fn an_error_lies_behind_what_was_taken() {
    let input = [0x83u8, 0x01, 0x62, 0x61, 0x62, 0x1c];
    let mut de = Deserializer::from_slice(&input);
    let e = Value::deserialize(&mut de).unwrap_err();
    assert_eq!(e.code, ErrorCode::UnexpectedCode(serde_cbor::error::ExpectedSet::all(), 0x1c));
    assert_eq!(e.offset, 6);
    assert!(e.offset >= de.byte_offset() as u64);
    let mut de = Deserializer::from_slice(&input[2..5]);
    assert_eq!(Value::deserialize(&mut de), Ok(Value::Text("ab".to_string())));
    let before = de.byte_offset() as u64;
    let e = Value::deserialize(&mut de).unwrap_err();
    assert!(e.offset >= before);
}
