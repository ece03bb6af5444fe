use serde_cbor::de::{
    CustomDeserializerOptions, Deserializer, DeserializerOptions, EnumAccess, MapAccess, SeqAccess, Token,
};
use serde_cbor::error::{Category, Error, ErrorCode, ExpectedSet};
use serde_cbor::read::{EitherLifetime, IoRead, Offset, Read, SliceRead};
use serde_cbor::ser::Float;
use serde_cbor::value::{from_deserializer, StreamDeserializer, Value};
use serde_cbor::{from_reader, from_slice, from_slice_with_scratch};

fn token(bytes: &[u8]) -> Result<Token, Error> {
    Deserializer::from_slice(bytes).parse_value(ExpectedSet::all())
}

fn fails(bytes: &[u8], code: ErrorCode, offset: u64) {
    let e = from_slice(bytes).unwrap_err();
    assert_eq!(e.code, code);
    assert_eq!(e.offset, offset);
}

#[test]
fn heads_of_every_width() {
    assert_eq!(token(&[0x00]), Ok(Token::Unsigned(0)));
    assert_eq!(token(&[0x17]), Ok(Token::Unsigned(23)));
    assert_eq!(token(&[0x18, 0x18]), Ok(Token::Unsigned(24)));
    assert_eq!(token(&[0x19, 0x01, 0x00]), Ok(Token::Unsigned(256)));
    assert_eq!(token(&[0x1a, 0x00, 0x01, 0x00, 0x00]), Ok(Token::Unsigned(65536)));
    assert_eq!(
        token(&[0x1b, 0x01, 0x02, 0x03, 0x04, 0x05, 0x06, 0x07, 0x08]),
        Ok(Token::Unsigned(0x0102_0304_0506_0708))
    );
    // A head that is wider than need be is read all the same.
    assert_eq!(token(&[0x1b, 0, 0, 0, 0, 0, 0, 0, 1]), Ok(Token::Unsigned(1)));
}

#[test]
fn heads_of_every_kind() {
    assert_eq!(token(&[0x20]), Ok(Token::Negative(-1)));
    assert_eq!(token(&[0x38, 0xff]), Ok(Token::Negative(-256)));
    assert_eq!(
        token(&[0x3b, 0x7f, 0xff, 0xff, 0xff, 0xff, 0xff, 0xff, 0xff]),
        Ok(Token::Negative(i64::MIN))
    );
    assert_eq!(
        token(&[0x3b, 0x80, 0, 0, 0, 0, 0, 0, 0]),
        Ok(Token::BigNegative(-9223372036854775809))
    );
    assert_eq!(token(&[0x43, 1, 2, 3]), Ok(Token::BytesStart(Some(3))));
    assert_eq!(token(&[0x5f]), Ok(Token::BytesStart(None)));
    assert_eq!(token(&[0x78, 0x20]), Ok(Token::TextStart(Some(32))));
    assert_eq!(token(&[0x7f]), Ok(Token::TextStart(None)));
    assert_eq!(token(&[0x98, 0x64]), Ok(Token::ArrayStart(Some(100))));
    assert_eq!(token(&[0x9f]), Ok(Token::ArrayStart(None)));
    assert_eq!(token(&[0xb9, 0x01, 0x00]), Ok(Token::MapStart(Some(256))));
    assert_eq!(token(&[0xbf]), Ok(Token::MapStart(None)));
    assert_eq!(token(&[0xc1]), Ok(Token::Tag(1)));
    assert_eq!(token(&[0xd9, 0xd9, 0xf7]), Ok(Token::Tag(55799)));
    assert_eq!(token(&[0xf4]), Ok(Token::Bool(false)));
    assert_eq!(token(&[0xf5]), Ok(Token::Bool(true)));
    assert_eq!(token(&[0xf6]), Ok(Token::Null));
    assert_eq!(token(&[0xf7]), Ok(Token::Null));
    assert_eq!(token(&[0xf9, 0x3c, 0x00]), Ok(Token::Float(Float::Half(0x3c00))));
    assert_eq!(
        token(&[0xfa, 0x3f, 0x80, 0x00, 0x00]),
        Ok(Token::Float(Float::Single(0x3f80_0000)))
    );
    assert_eq!(
        token(&[0xfb, 0x3f, 0xf0, 0, 0, 0, 0, 0, 1]),
        Ok(Token::Float(Float::Double(0x3ff0_0000_0000_0001)))
    );
}

#[test]
fn reserved_bytes_are_unexpected() {
    for byte in [0x1cu8, 0x1f, 0x3c, 0x3f, 0x5c, 0x7e, 0x9c, 0xbd, 0xdc, 0xdf, 0xe0, 0xf3, 0xf8, 0xfc, 0xff] {
        let e = token(&[byte, 0, 0, 0, 0, 0, 0, 0, 0]).unwrap_err();
        assert_eq!(e.code, ErrorCode::UnexpectedCode(ExpectedSet::all(), byte));
        assert_eq!(e.offset, 1);
    }
}

#[test]
fn masks_admit_what_was_asked_for() {
    let mut de = Deserializer::from_slice(&[0x20]);
    let e = de.deserialize_u64().unwrap_err();
    assert_eq!(e.code, ErrorCode::UnexpectedCode(ExpectedSet::for_uint(), 0x20));
    assert_eq!(Deserializer::from_slice(&[0x20]).deserialize_i64(), Ok(Token::Negative(-1)));
    assert_eq!(Deserializer::from_slice(&[0x01]).deserialize_f64(), Ok(Token::Unsigned(1)));
    assert_eq!(
        Deserializer::from_slice(&[0xf9, 0, 0]).deserialize_f32(),
        Ok(Token::Float(Float::Half(0)))
    );
    assert_eq!(Deserializer::from_slice(&[0x41, 0]).deserialize_str(), Ok(Token::BytesStart(Some(1))));
    assert_eq!(Deserializer::from_slice(&[0x80]).deserialize_bytes(), Ok(Token::ArrayStart(Some(0))));
    assert_eq!(Deserializer::from_slice(&[0x05]).deserialize_identifier(), Ok(Token::Unsigned(5)));
    assert_eq!(Deserializer::from_slice(&[0xf6]).deserialize_unit(), Ok(Token::Null));
    assert_eq!(Deserializer::from_slice(&[0xf5]).deserialize_bool(), Ok(Token::Bool(true)));
    assert_eq!(Deserializer::from_slice(&[0xa0]).deserialize_map(), Ok(Token::MapStart(Some(0))));
    assert_eq!(Deserializer::from_slice(&[0xa0]).deserialize_struct("S"), Ok(Token::MapStart(Some(0))));
    assert_eq!(Deserializer::from_slice(&[0x80]).deserialize_seq(), Ok(Token::ArrayStart(Some(0))));
    assert_eq!(Deserializer::from_slice(&[0x80]).deserialize_tuple(0), Ok(Token::ArrayStart(Some(0))));
    assert_eq!(Deserializer::from_slice(&[0x61]).deserialize_char(), Ok(Token::TextStart(Some(1))));
    assert_eq!(Deserializer::from_slice(&[0xc0]).deserialize_bool(), Ok(Token::Tag(0)));
    assert_eq!(
        Deserializer::from_slice(&[0x80]).deserialize_map().unwrap_err().code,
        ErrorCode::UnexpectedCode(ExpectedSet::for_map(), 0x80)
    );
    assert_eq!(
        Deserializer::from_slice(&[0x01]).deserialize_seq().unwrap_err().code,
        ErrorCode::UnexpectedCode(ExpectedSet::for_seq(), 0x01)
    );
    assert_eq!(
        Deserializer::from_slice(&[0xf4]).deserialize_unit().unwrap_err().code,
        ErrorCode::UnexpectedCode(ExpectedSet::for_unit(), 0xf4)
    );
    assert_eq!(
        Deserializer::from_slice(&[0xf6]).deserialize_bool().unwrap_err().code,
        ErrorCode::UnexpectedCode(ExpectedSet::for_bool(), 0xf6)
    );
    assert_eq!(
        Deserializer::from_slice(&[0xf9, 0, 0]).deserialize_i8().unwrap_err().code,
        ErrorCode::UnexpectedCode(ExpectedSet::for_sint(), 0xf9)
    );
    assert_eq!(
        Deserializer::from_slice(&[0x80]).deserialize_string().unwrap_err().code,
        ErrorCode::UnexpectedCode(ExpectedSet::for_string(), 0x80)
    );
    assert_eq!(
        Deserializer::from_slice(&[0x41, 0]).deserialize_identifier().unwrap_err().code,
        ErrorCode::UnexpectedCode(ExpectedSet::for_string_and_uint(), 0x41)
    );
    assert_eq!(
        Deserializer::from_slice(&[0xa0]).deserialize_byte_buf().unwrap_err().code,
        ErrorCode::UnexpectedCode(ExpectedSet::for_bytes(), 0xa0)
    );
    assert_eq!(
        Deserializer::from_slice(&[0xf6]).deserialize_f64().unwrap_err().code,
        ErrorCode::UnexpectedCode(ExpectedSet::for_float(), 0xf6)
    );
    assert!(!Deserializer::from_slice(&[]).is_human_readable());
}

#[test]
fn input_that_ends_too_early() {
    fails(&[], ErrorCode::EofWhileParsingValue, 0);
    fails(&[0x19, 0x01], ErrorCode::EofWhileParsingValue, 2);
    fails(&[0xfb, 0, 0, 0], ErrorCode::EofWhileParsingValue, 4);
    fails(&[0x62, 0x61], ErrorCode::EofWhileParsingString, 2);
    fails(&[0x5f, 0x42, 0x01], ErrorCode::EofWhileParsingString, 3);
    fails(&[0x5f, 0x41, 0x01], ErrorCode::EofWhileParsingString, 3);
    fails(&[0x5f], ErrorCode::EofWhileParsingString, 1);
    fails(&[0x7f, 0x61, 0x61], ErrorCode::EofWhileParsingString, 3);
    fails(&[0x5f, 0x58], ErrorCode::EofWhileParsingValue, 2);
    fails(&[0x82, 0x01], ErrorCode::EofWhileParsingArray, 2);
    fails(&[0x81], ErrorCode::EofWhileParsingArray, 1);
    fails(&[0x82, 0x19, 0x01], ErrorCode::EofWhileParsingValue, 3);
    fails(&[0x81, 0xc1], ErrorCode::EofWhileParsingValue, 2);
    fails(&[0x9f, 0x01], ErrorCode::EofWhileParsingArray, 2);
    fails(&[0xbf], ErrorCode::EofWhileParsingMap, 1);
    fails(&[0xbf, 0x01, 0x02], ErrorCode::EofWhileParsingMap, 3);
    fails(&[0xa1, 0x01], ErrorCode::EofWhileParsingMap, 2);
    fails(&[0xa1], ErrorCode::EofWhileParsingMap, 1);
    fails(&[0xa2, 0x01, 0x02], ErrorCode::EofWhileParsingMap, 3);
    fails(&[0xbf, 0x01], ErrorCode::EofWhileParsingMap, 2);
    fails(&[0x81, 0xa1, 0x01], ErrorCode::EofWhileParsingMap, 3);
    fails(&[0xa1, 0x01, 0x82, 0x02], ErrorCode::EofWhileParsingArray, 4);
    fails(&[0xc1], ErrorCode::EofWhileParsingValue, 1);
    let e = from_slice(&[0x9f]).unwrap_err();
    assert_eq!(e.classify(), Category::Eof);
    assert!(e.is_eof() && !e.is_syntax() && !e.is_data());
}

#[test]
fn input_that_is_not_well_formed() {
    fails(&[0x01, 0x02], ErrorCode::TrailingData, 2);
    fails(&[0x61, 0xff], ErrorCode::InvalidUtf8, 1);
    fails(&[0x7f, 0x61, 0xc3, 0xa9, 0xff], ErrorCode::UnexpectedCode(ExpectedSet::string(), 0xa9), 4);
    fails(&[0x62, 0xc3, 0x28], ErrorCode::InvalidUtf8, 1);
    fails(&[0x5f, 0x61, 0x61, 0xff], ErrorCode::UnexpectedCode(ExpectedSet::string(), 0x61), 2);
    fails(&[0x7f, 0x41, 0x61, 0xff], ErrorCode::UnexpectedCode(ExpectedSet::string(), 0x41), 2);
    fails(&[0x5f, 0x5f, 0xff, 0xff], ErrorCode::UnexpectedCode(ExpectedSet::string(), 0x5f), 2);
    fails(&[0x81, 0xff], ErrorCode::UnexpectedCode(ExpectedSet::all(), 0xff), 2);
    fails(&[0xa1, 0x01, 0xff], ErrorCode::UnexpectedCode(ExpectedSet::all(), 0xff), 3);
    fails(&[0xbf, 0x01, 0xff], ErrorCode::UnexpectedCode(ExpectedSet::all(), 0xff), 3);
    let e = from_slice(&[0x01, 0x02]).unwrap_err();
    assert_eq!(e.classify(), Category::Syntax);
    assert!(e.is_syntax());
}

#[test]
fn text_in_pieces_is_checked_as_a_whole() {
    // The two bytes of one character lie in two chunks.
    assert_eq!(
        from_slice(&[0x7f, 0x61, 0xc3, 0x61, 0xa9, 0xff]),
        Ok(Value::Text("\u{e9}".to_string()))
    );
    assert_eq!(
        from_slice(&[0x7f, 0x61, 0xc3, 0x61, 0x29, 0xff]).unwrap_err().code,
        ErrorCode::InvalidUtf8
    );
    assert_eq!(
        from_slice(&[0x7f, 0x62, 0x61, 0xc3, 0x62, 0xa9, 0x62, 0xff]),
        Ok(Value::Text("a\u{e9}b".to_string()))
    );
    assert_eq!(from_slice(&[0x7f, 0xff]), Ok(Value::Text(String::new())));
    assert_eq!(from_slice(&[0x5f, 0x40, 0x40, 0xff]), Ok(Value::Bytes(Vec::new())));
}

#[test]
fn invalid_text_is_reported_where_it_starts() {
    let e = from_slice(&[0x82, 0x01, 0x62, 0xc3, 0x28]).unwrap_err();
    assert_eq!(e.code, ErrorCode::InvalidUtf8);
    assert_eq!(e.offset, 3);
    assert_eq!(
        serde_cbor::de::convert_str(&[0x66, 0x6f, 0x6f], 9),
        Ok("foo")
    );
    let e = serde_cbor::de::convert_str(&[0x66, 0xff], 9).unwrap_err();
    assert_eq!(e.code, ErrorCode::InvalidUtf8);
    assert_eq!(e.offset, 9);
}

#[test]
fn values_of_every_kind() {
    assert_eq!(from_slice(&[0xf6]), Ok(Value::Null));
    assert_eq!(from_slice(&[0xf7]), Ok(Value::Null));
    assert_eq!(from_slice(&[0xf5]), Ok(Value::Bool(true)));
    assert_eq!(from_slice(&[0x20]), Ok(Value::Integer(-1)));
    assert_eq!(from_slice(&[0xf9, 0x7c, 0x00]), Ok(Value::Float(Float::Half(0x7c00))));
    assert_eq!(from_slice(&[0x42, 0xff, 0x00]), Ok(Value::Bytes(vec![0xff, 0x00])));
    assert_eq!(from_slice(&[0x62, 0xc3, 0xa9]), Ok(Value::Text("\u{e9}".to_string())));
    assert_eq!(
        from_slice(&[0x83, 0x01, 0x82, 0x02, 0x03, 0x80]),
        Ok(Value::Array(vec![
            Value::Integer(1),
            Value::Array(vec![Value::Integer(2), Value::Integer(3)]),
            Value::Array(vec![]),
        ]))
    );
    assert_eq!(
        from_slice(&[0x9f, 0x01, 0x9f, 0xff, 0xff]),
        Ok(Value::Array(vec![Value::Integer(1), Value::Array(vec![])]))
    );
    assert_eq!(
        from_slice(&[0xbf, 0x01, 0x02, 0x61, 0x62, 0xa0, 0xff]),
        Ok(Value::Mapping(vec![
            (Value::Integer(1), Value::Integer(2)),
            (Value::Text("b".to_string()), Value::Mapping(vec![])),
        ]))
    );
}

#[test]
fn map_entries_keep_their_order_and_their_doubles() {
    assert_eq!(
        from_slice(&[0xa3, 0x02, 0x00, 0x01, 0x00, 0x02, 0x01]),
        Ok(Value::Mapping(vec![
            (Value::Integer(2), Value::Integer(0)),
            (Value::Integer(1), Value::Integer(0)),
            (Value::Integer(2), Value::Integer(1)),
        ]))
    );
}

#[test]
fn tags_count_as_levels() {
    let mut bytes = vec![0xc1u8; 127];
    bytes.push(0x00);
    assert_eq!(from_slice(&bytes), Ok(Value::Integer(0)));
    let mut bytes = vec![0xc1u8; 128];
    bytes.push(0x00);
    let e = from_slice(&bytes).unwrap_err();
    assert_eq!(e.code, ErrorCode::RecursionLimitExceeded);
    assert_eq!(e.offset, 128);
    let mut de = Deserializer::from_slice(&[0xc1, 0xc2, 0x00]).keep_tags(true);
    assert_eq!(
        from_deserializer(&mut de),
        Ok(Value::Tag(1, Box::new(Value::Tag(2, Box::new(Value::Integer(0))))))
    );
}

#[test]
fn a_dropped_tag_keeps_the_mask() {
    let mut de = Deserializer::from_slice(&[0xc1, 0x20]);
    let e = de.deserialize_with(ExpectedSet::for_uint()).unwrap_err();
    assert_eq!(e.code, ErrorCode::UnexpectedCode(ExpectedSet::for_uint(), 0x20));
    assert_eq!(e.offset, 2);
    // Where tags are handed on, what they wrap may be anything.
    let mut de = Deserializer::from_slice(&[0xc1, 0x20]).keep_tags(true);
    assert_eq!(
        de.deserialize_with(ExpectedSet::for_uint()),
        Ok(Value::Tag(1, Box::new(Value::Integer(-1))))
    );
}

#[test]
fn the_tag_slot_holds_the_tag_of_the_value_in_hand() {
    let mut de = Deserializer::from_slice(&[0xc5, 0x01]).keep_tags(true);
    assert!(de.tags_kept());
    assert_eq!(de.current_tag(), None);
    assert_eq!(de.parse_value(ExpectedSet::all()), Ok(Token::Tag(5)));
    de.handle_tagged_value(5).unwrap();
    assert_eq!(de.current_tag(), Some(5));
    assert_eq!(de.parse_value(ExpectedSet::all()), Ok(Token::Unsigned(1)));
    de.tagged_value_done();
    assert_eq!(de.current_tag(), None);
    let mut de = Deserializer::from_slice(&[0xc5, 0x01]);
    de.handle_tagged_value(5).unwrap();
    assert_eq!(de.current_tag(), None);
    de.tagged_value_done();
}

#[test]
fn the_recursion_guard_counts_down_and_up() {
    let mut de = Deserializer::from_slice(&[]);
    for _ in 0..127 {
        de.recursion_checked().unwrap();
    }
    let e = de.recursion_checked().unwrap_err();
    assert_eq!(e.code, ErrorCode::RecursionLimitExceeded);
    de.recursion_done();
    assert_eq!(de.recursion_checked(), Ok(()));
}

#[test]
fn options_are_read_back() {
    let options = CustomDeserializerOptions::new();
    assert!(options.accept_named());
    assert!(options.accept_packed());
    assert!(options.accept_standard_enums());
    assert!(!options.accept_legacy_enums());
    let options = CustomDeserializerOptions::default()
        .set_accept_named_format(false)
        .set_accept_packed_format(false)
        .set_accept_standard_enums(false)
        .set_accept_legacy_enums(true);
    assert!(!options.accept_named());
    assert!(!options.accept_packed());
    assert!(!options.accept_standard_enums());
    assert!(options.accept_legacy_enums());
    let back = options.to_custom();
    assert!(!back.accept_named() && back.accept_legacy_enums());
}

#[test]
fn struct_keys_are_held_to_the_accepted_forms() {
    let bytes = [0xa1u8, 0x00, 0x01];
    let mut de = Deserializer::from_slice(&bytes).disable_packed_format();
    assert_eq!(de.deserialize_struct("S"), Ok(Token::MapStart(Some(1))));
    let mut fields = MapAccess::new(Some(1), true);
    let e = fields.next_key_seed(&mut de).unwrap_err();
    assert_eq!(e.code, ErrorCode::WrongStructFormat);
    assert_eq!(e.offset, 1);
    assert_eq!(e.classify(), Category::Data);
    assert!(e.is_data());

    let bytes = [0xa1u8, 0x61, 0x61, 0x01];
    let mut de = Deserializer::from_slice(&bytes).disable_named_format();
    assert_eq!(de.deserialize_struct("S"), Ok(Token::MapStart(Some(1))));
    let mut fields = MapAccess::new(Some(1), true);
    assert_eq!(fields.next_key_seed(&mut de).unwrap_err().code, ErrorCode::WrongStructFormat);

    let mut de = Deserializer::from_slice(&bytes).disable_packed_format();
    assert_eq!(de.deserialize_struct("S"), Ok(Token::MapStart(Some(1))));
    let mut fields = MapAccess::new(Some(1), true);
    assert_eq!(fields.next_key_seed(&mut de), Ok(true));
    assert_eq!(fields.size_hint(), Some(0));
}

#[test]
fn map_keys_of_any_form_are_let_through() {
    let bytes = [0xa2u8, 0x00, 0x01, 0x61, 0x61, 0x02];
    let mut de = Deserializer::from_slice(&bytes).disable_packed_format().disable_named_format();
    assert_eq!(
        from_deserializer(&mut de),
        Ok(Value::Mapping(vec![
            (Value::Integer(0), Value::Integer(1)),
            (Value::Text("a".to_string()), Value::Integer(2)),
        ]))
    );
    let mut de = Deserializer::from_slice(&bytes).disable_packed_format();
    assert_eq!(de.deserialize_map(), Ok(Token::MapStart(Some(2))));
    let mut entries = MapAccess::new(Some(2), false);
    assert_eq!(entries.next_key_seed(&mut de), Ok(true));
}

#[test]
fn sequences_step_by_step() {
    let bytes = [0x82u8, 0x01, 0x02, 0x9f, 0x03, 0xff];
    let mut de = Deserializer::from_slice(&bytes);
    assert_eq!(de.deserialize_seq(), Ok(Token::ArrayStart(Some(2))));
    de.recursion_checked().unwrap();
    let mut seq = SeqAccess::new(Some(2));
    assert_eq!(seq.size_hint(), Some(2));
    assert_eq!(seq.next_element_seed(&mut de), Ok(true));
    assert_eq!(de.deserialize_u8(), Ok(Token::Unsigned(1)));
    assert_eq!(seq.next_element_seed(&mut de), Ok(true));
    assert_eq!(de.deserialize_u8(), Ok(Token::Unsigned(2)));
    assert_eq!(seq.next_element_seed(&mut de), Ok(false));
    assert_eq!(seq.end(&mut de), Ok(()));
    de.recursion_done();

    assert_eq!(de.deserialize_seq(), Ok(Token::ArrayStart(None)));
    de.recursion_checked().unwrap();
    let mut seq = SeqAccess::new(None);
    assert_eq!(seq.size_hint(), None);
    assert_eq!(seq.next_element_seed(&mut de), Ok(true));
    assert_eq!(de.deserialize_u8(), Ok(Token::Unsigned(3)));
    assert_eq!(seq.next_element_seed(&mut de), Ok(false));
    assert_eq!(seq.end(&mut de), Ok(()));
    de.recursion_done();
    assert_eq!(de.end(), Ok(()));
}

#[test]
fn what_a_consumer_leaves_is_trailing_data() {
    let bytes = [0x82u8, 0x01, 0x02];
    let mut de = Deserializer::from_slice(&bytes);
    assert_eq!(de.deserialize_seq(), Ok(Token::ArrayStart(Some(2))));
    let mut seq = SeqAccess::new(Some(2));
    assert_eq!(seq.next_element_seed(&mut de), Ok(true));
    assert_eq!(de.deserialize_u8(), Ok(Token::Unsigned(1)));
    let e = seq.end(&mut de).unwrap_err();
    assert_eq!(e.code, ErrorCode::TrailingData);
    assert_eq!(e.offset, 2);

    let bytes = [0x9fu8, 0x01, 0x02, 0xff];
    let mut de = Deserializer::from_slice(&bytes);
    assert_eq!(de.deserialize_seq(), Ok(Token::ArrayStart(None)));
    let mut seq = SeqAccess::new(None);
    assert_eq!(seq.next_element_seed(&mut de), Ok(true));
    assert_eq!(de.deserialize_u8(), Ok(Token::Unsigned(1)));
    let e = seq.end(&mut de).unwrap_err();
    assert_eq!(e.code, ErrorCode::TrailingData);
    assert_eq!(e.offset, 3);

    let bytes = [0xbfu8, 0x01];
    let mut de = Deserializer::from_slice(&bytes);
    assert_eq!(de.deserialize_map(), Ok(Token::MapStart(None)));
    let map = MapAccess::new(None, false);
    assert_eq!(map.end(&mut de).unwrap_err().code, ErrorCode::TrailingData);
    assert_eq!(MapAccess::new(None, false).end(&mut de).unwrap_err().code, ErrorCode::EofWhileParsingMap);
    assert_eq!(SeqAccess::new(None).end(&mut de).unwrap_err().code, ErrorCode::EofWhileParsingArray);
    assert_eq!(SeqAccess::new(None).next_element_seed(&mut de).unwrap_err().code, ErrorCode::EofWhileParsingArray);
    assert_eq!(MapAccess::new(Some(1), false).end(&mut de).unwrap_err().code, ErrorCode::TrailingData);
}

#[test]
fn enums_by_their_form() {
    // A variant alone.
    let mut de = Deserializer::from_slice(&[0x61, 0x41]);
    assert!(matches!(de.deserialize_enum(), Ok(EnumAccess::Unit)));
    assert_eq!(de.byte_offset(), 0);

    // A map of one entry.
    let bytes = [0xa1u8, 0x61, 0x41, 0x01];
    let mut de = Deserializer::from_slice(&bytes);
    let mut access = match de.deserialize_enum() {
        Ok(EnumAccess::Standard(access)) => access,
        other => panic!("{:?}", other),
    };
    assert_eq!(de.byte_offset(), 1);
    assert_eq!(access.variant_seed(&mut de), Ok(()));
    assert_eq!(de.deserialize_identifier(), Ok(Token::TextStart(Some(1))));
    assert!(de.parse_str(Some(1)).is_ok());
    assert_eq!(de.deserialize_u8(), Ok(Token::Unsigned(1)));
    assert_eq!(access.end(&mut de), Ok(()));
    assert_eq!(de.end(), Ok(()));

    // An array, which is refused unless it was asked for.
    let bytes = [0x82u8, 0x00, 0x01];
    let e = Deserializer::from_slice(&bytes).deserialize_enum().unwrap_err();
    assert_eq!(e.code, ErrorCode::WrongEnumFormat);
    assert_eq!(e.offset, 0);
    assert_eq!(e.classify(), Category::Data);
    let options = CustomDeserializerOptions::new().set_accept_legacy_enums(true);
    let mut de = Deserializer::new_with_options(SliceRead::new(&bytes), options);
    let mut access = match de.deserialize_enum() {
        Ok(EnumAccess::Legacy(access)) => access,
        other => panic!("{:?}", other),
    };
    assert_eq!(access.seq.len, Some(2));
    assert_eq!(access.variant_seed(&mut de), Ok(()));
    assert_eq!(de.deserialize_identifier(), Ok(Token::Unsigned(0)));
    assert_eq!(access.newtype_variant_seed(&mut de), Ok(()));
    assert_eq!(de.deserialize_u8(), Ok(Token::Unsigned(1)));
    assert_eq!(access.end(&mut de), Ok(()));
    assert_eq!(de.end(), Ok(()));
}

#[test]
fn enums_that_were_ruled_out() {
    let mut de = Deserializer::from_slice(&[0xa1, 0x00, 0x01]).disable_standard_enums();
    assert_eq!(de.deserialize_enum().unwrap_err().code, ErrorCode::WrongEnumFormat);
    let mut de = Deserializer::from_slice(&[0x00]).disable_standard_enums();
    assert_eq!(de.deserialize_enum().unwrap_err().code, ErrorCode::WrongEnumFormat);
    let mut de = Deserializer::from_slice(&[0x00]).disable_legacy_enums();
    assert!(matches!(de.deserialize_enum(), Ok(EnumAccess::Unit)));
    let mut de = Deserializer::from_slice(&[]);
    assert_eq!(de.deserialize_enum().unwrap_err().code, ErrorCode::EofWhileParsingValue);
}

#[test]
fn enum_arrays_of_the_wrong_length() {
    let options = CustomDeserializerOptions::new().set_accept_legacy_enums(true);
    let mut de = Deserializer::new_with_options(SliceRead::new(&[0x80]), options);
    let mut access = match de.deserialize_enum() {
        Ok(EnumAccess::Legacy(access)) => access,
        other => panic!("{:?}", other),
    };
    let e = access.variant_seed(&mut de).unwrap_err();
    assert_eq!(e.code, ErrorCode::ArrayTooShort);
    assert_eq!(e.offset, 1);
    assert_eq!(access.unit_variant(&mut de).unwrap_err().code, ErrorCode::ArrayTooLong);
    assert_eq!(access.newtype_variant_seed(&mut de).unwrap_err().code, ErrorCode::ArrayTooShort);
    assert_eq!(access.struct_variant(&mut de).unwrap_err().code, ErrorCode::ArrayTooShort);
    assert_eq!(access.end(&mut de), Ok(()));

    let mut de = Deserializer::from_slice(&[0xa1, 0x00, 0x01]);
    let mut access = match de.deserialize_enum() {
        Ok(EnumAccess::Standard(access)) => access,
        other => panic!("{:?}", other),
    };
    let e = access.end(&mut de).unwrap_err();
    assert_eq!(e.code, ErrorCode::TrailingData);
    let mut de = Deserializer::from_slice(&[0xa1, 0x00, 0x01]);
    let mut access = de.parse_enum_map().unwrap();
    assert_eq!(access.variant_seed(&mut de), Ok(()));
    assert_eq!(access.variant_seed(&mut de).unwrap_err().code, ErrorCode::ArrayTooShort);
}

#[test]
fn options_stand_for_absent_values() {
    let mut de = Deserializer::from_slice(&[0xf6, 0x01]);
    assert_eq!(de.deserialize_option(), Ok(false));
    assert_eq!(de.deserialize_option(), Ok(true));
    assert_eq!(de.deserialize_u8(), Ok(Token::Unsigned(1)));
    assert_eq!(de.deserialize_option(), Ok(true));
    assert_eq!(de.end(), Ok(()));
}

#[test]
fn a_fixed_buffer_can_be_too_small() {
    let bytes = [0x5fu8, 0x42, 0x01, 0x02, 0x43, 0x03, 0x04, 0x05, 0xff];
    let mut scratch = [0u8; 5];
    assert_eq!(
        from_slice_with_scratch(&bytes, &mut scratch),
        Ok(Value::Bytes(vec![1, 2, 3, 4, 5]))
    );
    let mut scratch = [0u8; 4];
    let e = from_slice_with_scratch(&bytes, &mut scratch).unwrap_err();
    assert_eq!(e.code, ErrorCode::ScratchTooSmall);
    assert_eq!(e.offset, 5);
    assert_eq!(e.classify(), Category::Data);
    // What lies in the input in one piece needs no buffer.
    let mut scratch = [0u8; 0];
    assert_eq!(
        from_slice_with_scratch(&[0x43, 1, 2, 3], &mut scratch),
        Ok(Value::Bytes(vec![1, 2, 3]))
    );
}

#[test]
fn sources_hand_out_bytes_in_their_own_way() {
    let bytes = [1u8, 2, 3, 4, 5, 6];
    let mut slice = SliceRead::new(&bytes);
    assert_eq!(slice.peek(), Ok(Some(1)));
    assert_eq!(slice.next(), Ok(Some(1)));
    slice.discard();
    assert_eq!(slice.offset(), 2);
    assert_eq!(slice.byte_offset(), 2);
    assert!(matches!(slice.read(2), Ok(EitherLifetime::Long(&[3, 4]))));
    slice.clear_buffer();
    slice.read_to_buffer(1).unwrap();
    assert!(matches!(slice.take_buffer(), EitherLifetime::Short(&[5])));
    let mut buf = [0u8; 1];
    slice.read_into(&mut buf).unwrap();
    assert_eq!(buf, [6]);
    assert_eq!(slice.next(), Ok(None));
    assert_eq!(slice.peek(), Ok(None));
    let e = slice.read_into(&mut buf).unwrap_err();
    assert_eq!(e.code, ErrorCode::EofWhileParsingValue);
    assert_eq!(e.offset, 6);
    let e = slice.read(1).unwrap_err();
    assert_eq!(e.code, ErrorCode::EofWhileParsingString);

    let mut stream = IoRead::new(bytes.to_vec());
    assert!(matches!(stream.read(2), Ok(EitherLifetime::Short(&[1, 2]))));
    assert!(matches!(stream.read(2), Ok(EitherLifetime::Short(&[3, 4]))));
    assert_eq!(stream.byte_offset(), 4);
    assert_eq!(stream.read(3).unwrap_err().offset, 6);
    assert_eq!(stream.next(), Ok(Some(5)));
}

#[test]
fn a_mutable_slice_is_rearranged_in_place() {
    let mut bytes = [0x82u8, 0x5f, 0x41, 0x01, 0x42, 0x02, 0x03, 0xff, 0x7f, 0x61, 0x61, 0x61, 0x62, 0xff];
    let mut de = Deserializer::from_mut_slice(&mut bytes);
    assert_eq!(
        Value::deserialize(&mut de),
        Ok(Value::Array(vec![Value::Bytes(vec![1, 2, 3]), Value::Text("ab".to_string())]))
    );
    assert_eq!(de.byte_offset(), 14);
    assert_eq!(de.end(), Ok(()));
}

#[test]
fn a_stream_of_values() {
    let mut stream = Deserializer::from_slice(&[0x01, 0x66, 0x66, 0x6f, 0x6f, 0x62, 0x61, 0x72, 0xff]).into_iter();
    assert_eq!(stream.next(), Some(Ok(Value::Integer(1))));
    assert_eq!(stream.byte_offset(), 1);
    assert_eq!(stream.next(), Some(Ok(Value::Text("foobar".to_string()))));
    assert_eq!(stream.byte_offset(), 8);
    let e = stream.next().unwrap().unwrap_err();
    assert_eq!(e.code, ErrorCode::UnexpectedCode(ExpectedSet::all(), 0xff));
    assert_eq!(e.offset, 9);
    assert_eq!(stream.next(), None);

    let mut stream = StreamDeserializer::new(IoRead::new(vec![0x80, 0xa0]));
    assert_eq!(stream.next(), Some(Ok(Value::Array(vec![]))));
    assert_eq!(stream.next(), Some(Ok(Value::Mapping(vec![]))));
    assert_eq!(stream.next(), None);
    assert_eq!(stream.byte_offset(), 2);
}

#[test]
fn errors_are_sorted() {
    assert_eq!(Error::syntax(ErrorCode::TrailingData, 3).offset(), 3);
    assert_eq!(Error::message("no").classify(), Category::Data);
    assert_eq!(Error::message("no").code, ErrorCode::Message("no".to_string()));
    assert_eq!(Error::scratch_too_small(4).code, ErrorCode::ScratchTooSmall);
    assert_eq!(Error::syntax(ErrorCode::LengthOutOfRange, 0).classify(), Category::Syntax);
    assert_eq!(Error::syntax(ErrorCode::InvalidUtf8, 0).classify(), Category::Syntax);
    assert_eq!(Error::syntax(ErrorCode::RecursionLimitExceeded, 0).classify(), Category::Syntax);
    assert_eq!(Error::syntax(ErrorCode::ArrayTooShort, 0).classify(), Category::Syntax);
    assert_eq!(Error::syntax(ErrorCode::ArrayTooLong, 0).classify(), Category::Syntax);
    assert_eq!(Error::syntax(ErrorCode::EofWhileParsingString, 0).classify(), Category::Eof);
    assert_eq!(
        Error::syntax(ErrorCode::UnexpectedCode(ExpectedSet::none(), 0), 0).classify(),
        Category::Syntax
    );
}

#[test]
fn a_slice_and_a_stream_agree() {
    let inputs: Vec<Vec<u8>> = vec![
        vec![],
        vec![0x18, 0xff],
        vec![0x18],
        vec![0x66, 0x66, 0x6f, 0x6f, 0x62, 0x61, 0x72],
        vec![0x66, 0x66, 0x6f],
        vec![0x5f, 0x42, 0x01, 0x02, 0x43, 0x03, 0x04, 0x05, 0xff],
        vec![0x5f, 0x42, 0x01, 0x02, 0x43, 0x03],
        vec![0x7f, 0x7f, 0xff, 0xff],
        vec![0xa1, 0x61, 0x61, 0x01],
        vec![0xa1, 0x61, 0x61],
        vec![0xd9, 0xd9, 0xf7, 0x01],
        vec![0xff],
        vec![0x81; 129],
        vec![0x9f, 0x01, 0x82, 0x02, 0x03, 0xff],
        vec![0x62, 0xc3, 0x28],
        vec![0x01, 0x02],
        vec![0x3b, 0xff, 0xff, 0xff, 0xff, 0xff, 0xff, 0xff, 0xff],
        vec![0xfb, 0x40, 0x09, 0x21, 0xfb, 0x54, 0x44, 0x2d, 0x18],
    ];
    for input in inputs {
        assert_eq!(from_slice(&input), from_reader(input.clone()), "{:02x?}", input);
    }
}

#[test]
fn a_refused_enum_takes_nothing() {
    let bytes = [0x82u8, 0x61, 0x41, 0x01];
    let mut de = Deserializer::from_slice(&bytes);
    let e = de.deserialize_enum().unwrap_err();
    assert_eq!(e.code, ErrorCode::WrongEnumFormat);
    assert_eq!(e.offset, 0);
    assert_eq!(de.byte_offset(), 0);
    // With the legacy form accepted the same bytes open an enum.
    let options = CustomDeserializerOptions::new().set_accept_legacy_enums(true);
    let mut de = Deserializer::new_with_options(SliceRead::new(&bytes), options);
    assert!(matches!(de.deserialize_enum(), Ok(EnumAccess::Legacy(_))));
    assert_eq!(de.byte_offset(), 1);

    let mut de = Deserializer::from_slice(&[0xa1, 0x00, 0x01]).disable_standard_enums();
    assert_eq!(de.deserialize_enum().unwrap_err().code, ErrorCode::WrongEnumFormat);
    assert_eq!(de.byte_offset(), 0);
    let mut de = Deserializer::from_slice(&[]);
    assert_eq!(de.deserialize_enum().unwrap_err().code, ErrorCode::EofWhileParsingValue);
    assert_eq!(de.byte_offset(), 0);
}

#[test]
fn an_enum_that_fails_behind_its_head_has_taken_the_head() {
    let options = CustomDeserializerOptions::new().set_accept_legacy_enums(true);
    // The argument of the array head is cut short: the head byte is taken, the argument is not.
    let bytes = [0x99u8, 0x01];
    let mut de = Deserializer::new_with_options(SliceRead::new(&bytes), options);
    let e = de.deserialize_enum().unwrap_err();
    assert_eq!(e.code, ErrorCode::EofWhileParsingValue);
    assert_eq!(e.offset, 2);
    assert_eq!(de.byte_offset(), 1);
    // The limit on nesting is met behind the head.
    let mut de = Deserializer::from_slice(&[0xa1, 0x00, 0x01]);
    for _ in 0..127 {
        de.recursion_checked().unwrap();
    }
    let e = de.deserialize_enum().unwrap_err();
    assert_eq!(e.code, ErrorCode::RecursionLimitExceeded);
    assert_eq!(e.offset, 1);
    assert_eq!(de.byte_offset(), 1);
}

#[test]
fn a_head_that_is_not_admitted_takes_its_one_byte() {
    let mut de = Deserializer::from_slice(&[0x20, 0x01]);
    let e = de.deserialize_u64().unwrap_err();
    assert_eq!(e.code, ErrorCode::UnexpectedCode(ExpectedSet::for_uint(), 0x20));
    assert_eq!(e.offset, 1);
    assert_eq!(de.byte_offset(), 1);
    assert_eq!(de.deserialize_u64(), Ok(Token::Unsigned(1)));
}

#[test]
fn a_decode_that_fails_stands_where_it_stopped() {
    // The input ends in an argument: the head byte is taken.
    let mut de = Deserializer::from_slice(&[0x19, 0x01]);
    assert_eq!(de.parse_value(ExpectedSet::all()).unwrap_err().offset, 2);
    assert_eq!(de.byte_offset(), 1);
    // Text that is not UTF-8 is reported where it begins, and is taken.
    let mut de = Deserializer::from_slice(&[0x82, 0x62, 0xc3, 0x28, 0x05]);
    let e = Value::deserialize(&mut de).unwrap_err();
    assert_eq!(e.code, ErrorCode::InvalidUtf8);
    assert_eq!(e.offset, 2);
    assert_eq!(de.byte_offset(), 4);
    assert_eq!(Value::deserialize(&mut de), Ok(Value::Integer(5)));
    // A string that is cut short: its head is taken, its content is not.
    let mut de = Deserializer::from_slice(&[0x63, 0x61]);
    let e = Value::deserialize(&mut de).unwrap_err();
    assert_eq!(e.code, ErrorCode::EofWhileParsingString);
    assert_eq!(e.offset, 2);
    assert_eq!(de.byte_offset(), 1);
    // A chunk of the wrong kind: the chunks before it and its head byte are taken.
    let mut de = Deserializer::from_slice(&[0x5f, 0x41, 0x01, 0x61, 0x61, 0xff]);
    let e = Value::deserialize(&mut de).unwrap_err();
    assert_eq!(e.code, ErrorCode::UnexpectedCode(ExpectedSet::string(), 0x61));
    assert_eq!(de.byte_offset(), 4);
    // Trailing data: the value and one byte behind it are taken.
    let mut de = Deserializer::from_slice(&[0x01, 0x02, 0x03]);
    let e = from_deserializer(&mut de).unwrap_err();
    assert_eq!(e.code, ErrorCode::TrailingData);
    assert_eq!(e.offset, 2);
    assert_eq!(de.byte_offset(), 2);
}

#[test]
fn a_stream_goes_on_behind_an_error() {
    let mut stream = Deserializer::from_slice(&[0x01, 0x1c, 0x02, 0x81, 0xff, 0x03]).into_iter();
    assert_eq!(stream.next(), Some(Ok(Value::Integer(1))));
    assert_eq!(stream.next().unwrap().unwrap_err().offset, 2);
    assert_eq!(stream.byte_offset(), 2);
    assert_eq!(stream.next(), Some(Ok(Value::Integer(2))));
    assert_eq!(stream.next().unwrap().unwrap_err().offset, 5);
    assert_eq!(stream.byte_offset(), 5);
    assert_eq!(stream.next(), Some(Ok(Value::Integer(3))));
    assert_eq!(stream.next(), None);
}

#[test]
fn an_enum_array_that_ends_badly_stands_where_it_stopped() {
    let options = CustomDeserializerOptions::new().set_accept_legacy_enums(true);
    let bytes = [0x9fu8, 0x00, 0x01];
    let mut de = Deserializer::new_with_options(SliceRead::new(&bytes), options);
    let mut access = match de.deserialize_enum() {
        Ok(EnumAccess::Legacy(access)) => access,
        other => panic!("{:?}", other),
    };
    assert_eq!(access.variant_seed(&mut de), Ok(()));
    assert_eq!(de.deserialize_identifier(), Ok(Token::Unsigned(0)));
    let e = access.end(&mut de).unwrap_err();
    assert_eq!(e.code, ErrorCode::TrailingData);
    assert_eq!(e.offset, 3);
    assert_eq!(de.byte_offset(), 3);
}

#[test]
fn a_tag_head_is_taken_where_one_stands_next() {
    let mut de = Deserializer::from_slice(&[0xc5, 0xd9, 0xd9, 0xf7, 0x01]);
    assert_eq!(de.parse_tag(), Ok(Some(5)));
    assert_eq!(de.byte_offset(), 1);
    assert_eq!(de.parse_tag(), Ok(Some(55799)));
    assert_eq!(de.byte_offset(), 4);
    assert_eq!(de.parse_tag(), Ok(None));
    assert_eq!(de.byte_offset(), 4);
    assert_eq!(de.deserialize_u8(), Ok(Token::Unsigned(1)));
    assert_eq!(de.parse_tag(), Ok(None));
    assert_eq!(de.byte_offset(), 5);
    // The argument of the tag is cut short: the head byte is taken.
    let mut de = Deserializer::from_slice(&[0xd9, 0xd9]);
    let e = de.parse_tag().unwrap_err();
    assert_eq!(e.code, ErrorCode::EofWhileParsingValue);
    assert_eq!(e.offset, 2);
    assert_eq!(de.byte_offset(), 1);
    // Additional information that is reserved makes no tag head.
    let mut de = Deserializer::from_slice(&[0xdc]);
    assert_eq!(de.parse_tag(), Ok(None));
    assert_eq!(de.byte_offset(), 0);
}

#[test]
fn a_container_that_is_cut_short_says_so_step_by_step() {
    let mut de = Deserializer::from_slice(&[0x82, 0x01]);
    assert_eq!(de.deserialize_seq(), Ok(Token::ArrayStart(Some(2))));
    let mut seq = SeqAccess::new(Some(2));
    assert_eq!(seq.next_element_seed(&mut de), Ok(true));
    assert_eq!(de.deserialize_u8(), Ok(Token::Unsigned(1)));
    let e = seq.next_element_seed(&mut de).unwrap_err();
    assert_eq!(e.code, ErrorCode::EofWhileParsingArray);
    assert_eq!(e.offset, 2);
    assert_eq!(seq.size_hint(), Some(1));
    assert_eq!(de.byte_offset(), 2);

    let mut de = Deserializer::from_slice(&[0xa2, 0x01]);
    assert_eq!(de.deserialize_map(), Ok(Token::MapStart(Some(2))));
    let mut map = MapAccess::new(Some(2), false);
    assert_eq!(map.next_key_seed(&mut de), Ok(true));
    assert_eq!(de.deserialize_u8(), Ok(Token::Unsigned(1)));
    let e = map.next_value_seed(&mut de).unwrap_err();
    assert_eq!(e.code, ErrorCode::EofWhileParsingMap);
    assert_eq!(e.offset, 2);
    let e = map.next_key_seed(&mut de).unwrap_err();
    assert_eq!(e.code, ErrorCode::EofWhileParsingMap);
    assert_eq!(map.size_hint(), Some(1));

    let mut de = Deserializer::from_slice(&[0xa1, 0x01, 0x02]);
    assert_eq!(de.deserialize_map(), Ok(Token::MapStart(Some(1))));
    let mut map = MapAccess::new(Some(1), false);
    assert_eq!(map.next_key_seed(&mut de), Ok(true));
    assert_eq!(de.deserialize_u8(), Ok(Token::Unsigned(1)));
    assert_eq!(map.next_value_seed(&mut de), Ok(()));
    assert_eq!(de.byte_offset(), 2);
    assert_eq!(de.deserialize_u8(), Ok(Token::Unsigned(2)));
    assert_eq!(map.next_key_seed(&mut de), Ok(false));
    assert_eq!(map.end(&mut de), Ok(()));

    // An enum in either form that ends where its variant is due.
    let options = CustomDeserializerOptions::new().set_accept_legacy_enums(true);
    let mut de = Deserializer::new_with_options(SliceRead::new(&[0x82]), options);
    let mut access = match de.deserialize_enum() {
        Ok(EnumAccess::Legacy(access)) => access,
        other => panic!("{:?}", other),
    };
    assert_eq!(access.variant_seed(&mut de).unwrap_err().code, ErrorCode::EofWhileParsingArray);
    let mut de = Deserializer::from_slice(&[0xa1]);
    let mut access = match de.deserialize_enum() {
        Ok(EnumAccess::Standard(access)) => access,
        other => panic!("{:?}", other),
    };
    assert_eq!(access.variant_seed(&mut de).unwrap_err().code, ErrorCode::EofWhileParsingMap);
}

#[test]
fn a_string_in_pieces_that_is_cut_short() {
    let mut de = Deserializer::from_slice(&[0x5f, 0x41, 0x01]);
    assert_eq!(de.parse_value(ExpectedSet::all()), Ok(Token::BytesStart(None)));
    let e = de.read_indefinite_bytes().unwrap_err();
    assert_eq!(e.code, ErrorCode::EofWhileParsingString);
    assert_eq!(e.offset, 3);
    assert_eq!(de.byte_offset(), 3);
    let mut de = Deserializer::from_slice(&[0x7f]);
    assert_eq!(de.parse_value(ExpectedSet::all()), Ok(Token::TextStart(None)));
    let e = de.read_indefinite_str().unwrap_err();
    assert_eq!(e.code, ErrorCode::EofWhileParsingString);
    assert_eq!(e.offset, 1);
    assert!(e.is_eof());
}
