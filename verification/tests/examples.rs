use serde_cbor::de::{Deserializer, EitherStr, Token};
use serde_cbor::error::{ErrorCode, ExpectedSet};
use serde_cbor::read::EitherLifetime;
use serde_cbor::value::{from_deserializer, Value};
use serde_cbor::{from_mut_slice, from_reader, from_slice, to_vec};

#[test]
fn unsigned_255_round_trips() {
    let bytes = [0x18u8, 0xff];
    let mut de = Deserializer::from_slice(&bytes);
    let value = Value::deserialize(&mut de).unwrap();
    assert_eq!(value, Value::Integer(255));
    assert_eq!(de.end(), Ok(()));
    assert_eq!(to_vec(&value).unwrap(), bytes.to_vec());
}

#[test]
fn text_from_a_slice_is_borrowed() {
    let bytes = [0x66u8, 0x66, 0x6f, 0x6f, 0x62, 0x61, 0x72];
    assert_eq!(from_slice(&bytes), Ok(Value::Text("foobar".to_string())));
    let mut de = Deserializer::from_slice(&bytes);
    assert_eq!(de.parse_value(ExpectedSet::all()), Ok(Token::TextStart(Some(6))));
    match de.parse_str(Some(6)).unwrap() {
        EitherStr::Long(s) => assert_eq!(s, "foobar"),
        EitherStr::Short(_) => panic!("a slice hands its text out borrowed"),
    }
}

#[test]
fn indefinite_bytes_are_put_together() {
    let bytes = [0x5fu8, 0x42, 0x01, 0x02, 0x43, 0x03, 0x04, 0x05, 0xff];
    assert_eq!(from_slice(&bytes), Ok(Value::Bytes(vec![1, 2, 3, 4, 5])));
    assert_eq!(from_reader(bytes.to_vec()), Ok(Value::Bytes(vec![1, 2, 3, 4, 5])));
    let mut copy = bytes;
    assert_eq!(from_mut_slice(&mut copy), Ok(Value::Bytes(vec![1, 2, 3, 4, 5])));
}

#[test]
fn indefinite_bytes_from_a_stream_are_transient() {
    let bytes = vec![0x5fu8, 0x42, 0x01, 0x02, 0x43, 0x03, 0x04, 0x05, 0xff];
    let mut de = Deserializer::from_reader(bytes);
    assert_eq!(de.parse_value(ExpectedSet::all()), Ok(Token::BytesStart(None)));
    match de.parse_bytes(None).unwrap() {
        EitherLifetime::Short(b) => assert_eq!(b, &[1u8, 2, 3, 4, 5][..]),
        EitherLifetime::Long(_) => panic!("a stream hands nothing out borrowed"),
    }
    assert_eq!(de.end(), Ok(()));
}

#[test]
fn indefinite_bytes_from_a_mutable_slice_are_borrowed() {
    let mut bytes = [0x5fu8, 0x42, 0x01, 0x02, 0x43, 0x03, 0x04, 0x05, 0xff];
    let mut de = Deserializer::from_mut_slice(&mut bytes);
    assert_eq!(de.parse_value(ExpectedSet::all()), Ok(Token::BytesStart(None)));
    match de.parse_bytes(None).unwrap() {
        EitherLifetime::Long(b) => assert_eq!(b, &[1u8, 2, 3, 4, 5][..]),
        EitherLifetime::Short(_) => panic!("a mutable slice hands everything out borrowed"),
    }
    assert_eq!(de.end(), Ok(()));
}

#[test]
fn a_map_of_one_entry() {
    let bytes = [0xa1u8, 0x61, 0x61, 0x01];
    let expected = Value::Mapping(vec![(Value::Text("a".to_string()), Value::Integer(1))]);
    assert_eq!(to_vec(&expected).unwrap(), bytes.to_vec());
    assert_eq!(from_slice(&bytes), Ok(expected));
}

#[test]
fn self_describe_tag_is_kept_or_dropped() {
    let bytes = [0xd9u8, 0xd9, 0xf7, 0x01];
    assert_eq!(from_slice(&bytes), Ok(Value::Integer(1)));
    let mut de = Deserializer::from_slice(&bytes).keep_tags(true);
    assert_eq!(
        from_deserializer(&mut de),
        Ok(Value::Tag(55799, Box::new(Value::Integer(1))))
    );
}

#[test]
fn break_at_top_level_is_unexpected() {
    let e = from_slice(&[0xff]).unwrap_err();
    assert_eq!(e.code, ErrorCode::UnexpectedCode(ExpectedSet::all(), 0xff));
    assert_eq!(e.offset, 1);
}

#[test]
fn nesting_is_bounded() {
    let deep = vec![0x81u8; 129];
    let e = from_slice(&deep).unwrap_err();
    assert_eq!(e.code, ErrorCode::RecursionLimitExceeded);
    assert_eq!(e.offset, 128);
    let mut fine = vec![0x81u8; 127];
    fine.push(0x00);
    assert!(from_slice(&fine).is_ok());
    let mut too_deep = vec![0x81u8; 128];
    too_deep.push(0x00);
    assert_eq!(from_slice(&too_deep).unwrap_err().code, ErrorCode::RecursionLimitExceeded);
}

#[test]
fn nested_indefinite_text_is_refused() {
    let e = from_slice(&[0x7f, 0x7f, 0xff, 0xff]).unwrap_err();
    assert_eq!(e.code, ErrorCode::UnexpectedCode(ExpectedSet::string(), 0x7f));
    assert_eq!(e.offset, 2);
    assert!(e.is_syntax());
}

#[test]
fn least_negative_integer() {
    let bytes = [0x3bu8, 0xff, 0xff, 0xff, 0xff, 0xff, 0xff, 0xff, 0xff];
    let expected = Value::Integer(-18446744073709551616i128);
    assert_eq!(to_vec(&expected).unwrap(), bytes.to_vec());
    assert_eq!(from_slice(&bytes), Ok(expected));
}
