use serde_cbor::error::ErrorCode;
use serde_cbor::ser::{CustomSerializerOptions, Float, Serializer, SerializerOptions};
use serde_cbor::write::{SliceWrite, Write};

fn encoder() -> Serializer<Vec<u8>> {
    Serializer::new(Vec::new())
}

fn head(major: u8, value: u64) -> Vec<u8> {
    let mut ser = encoder();
    ser.write_u64(major, value).unwrap();
    ser.into_inner()
}

#[test]
fn heads_take_the_least_width() {
    assert_eq!(head(0, 0), vec![0x00]);
    assert_eq!(head(0, 23), vec![0x17]);
    assert_eq!(head(0, 24), vec![0x18, 0x18]);
    assert_eq!(head(0, 255), vec![0x18, 0xff]);
    assert_eq!(head(0, 256), vec![0x19, 0x01, 0x00]);
    assert_eq!(head(0, 65535), vec![0x19, 0xff, 0xff]);
    assert_eq!(head(0, 65536), vec![0x1a, 0x00, 0x01, 0x00, 0x00]);
    assert_eq!(head(0, 0xffff_ffff), vec![0x1a, 0xff, 0xff, 0xff, 0xff]);
    assert_eq!(
        head(0, 0x1_0000_0000),
        vec![0x1b, 0x00, 0x00, 0x00, 0x01, 0x00, 0x00, 0x00, 0x00]
    );
    assert_eq!(
        head(0, u64::MAX),
        vec![0x1b, 0xff, 0xff, 0xff, 0xff, 0xff, 0xff, 0xff, 0xff]
    );
}

#[test]
fn heads_bear_their_major_type() {
    assert_eq!(head(1, 9), vec![0x29]);
    assert_eq!(head(2, 500), vec![0x59, 0x01, 0xf4]);
    assert_eq!(head(3, 24), vec![0x78, 0x18]);
    assert_eq!(head(4, 3), vec![0x83]);
    assert_eq!(head(5, 1), vec![0xa1]);
    assert_eq!(head(6, 55799), vec![0xd9, 0xd9, 0xf7]);
    assert_eq!(head(7, 22), vec![0xf6]);
}

#[test]
fn integers() {
    let mut ser = encoder();
    ser.serialize_i8(-1).unwrap();
    ser.serialize_i16(-500).unwrap();
    ser.serialize_i32(1_000_000).unwrap();
    ser.serialize_i64(i64::MIN).unwrap();
    ser.serialize_u8(10).unwrap();
    ser.serialize_u16(1000).unwrap();
    ser.serialize_u32(100_000).unwrap();
    ser.serialize_u64(1_000_000_000_000).unwrap();
    assert_eq!(
        ser.into_inner(),
        vec![
            0x20, 0x39, 0x01, 0xf3, 0x1a, 0x00, 0x0f, 0x42, 0x40, 0x3b, 0x7f, 0xff, 0xff, 0xff, 0xff, 0xff,
            0xff, 0xff, 0x0a, 0x19, 0x03, 0xe8, 0x1a, 0x00, 0x01, 0x86, 0xa0, 0x1b, 0x00, 0x00, 0x00, 0xe8,
            0xd4, 0xa5, 0x10, 0x00,
        ]
    );
}

#[test]
fn wide_integers_within_range() {
    let mut ser = encoder();
    ser.serialize_i128(-18446744073709551616).unwrap();
    ser.serialize_i128(18446744073709551615).unwrap();
    ser.serialize_u128(18446744073709551615).unwrap();
    ser.serialize_i128(-1).unwrap();
    assert_eq!(
        ser.into_inner(),
        vec![
            0x3b, 0xff, 0xff, 0xff, 0xff, 0xff, 0xff, 0xff, 0xff, 0x1b, 0xff, 0xff, 0xff, 0xff, 0xff, 0xff,
            0xff, 0xff, 0x1b, 0xff, 0xff, 0xff, 0xff, 0xff, 0xff, 0xff, 0xff, 0x20,
        ]
    );
}

#[test]
fn wide_integers_out_of_range() {
    let message = ErrorCode::Message("The number can't be stored in CBOR".to_string());
    let mut ser = encoder();
    let e = ser.serialize_i128(-18446744073709551617).unwrap_err();
    assert_eq!(e.code, message);
    assert_eq!(e.offset, 0);
    assert_eq!(ser.serialize_i128(18446744073709551616).unwrap_err().code, message);
    assert_eq!(ser.serialize_u128(18446744073709551616).unwrap_err().code, message);
    assert_eq!(ser.into_inner(), Vec::<u8>::new());
}

#[test]
fn simple_values() {
    let mut ser = encoder();
    ser.serialize_bool(false).unwrap();
    ser.serialize_bool(true).unwrap();
    ser.serialize_none().unwrap();
    ser.serialize_unit().unwrap();
    ser.serialize_unit_struct("Unit").unwrap();
    assert_eq!(ser.into_inner(), vec![0xf4, 0xf5, 0xf6, 0xf6, 0xf6]);
    assert!(!encoder().is_human_readable());
}

#[test]
fn floats_are_narrowed() {
    let mut ser = encoder();
    // 1.0 has a half-precision form.
    ser.serialize_f32(0x3f80_0000, Some(0x3c00)).unwrap();
    // 0.1 in single precision has none.
    ser.serialize_f32(0x3dcc_cccd, None).unwrap();
    // 1.5 as a double has a single- and a half-precision form.
    ser.serialize_f64(0x3ff8_0000_0000_0000, Some(0x3fc0_0000), Some(0x3e00)).unwrap();
    // 100000.0 as a double has a single-precision form only.
    ser.serialize_f64(0x40f8_6a00_0000_0000, Some(0x47c3_5000), None).unwrap();
    // 0.1 as a double has neither.
    ser.serialize_f64(0x3fb9_9999_9999_999a, None, None).unwrap();
    assert_eq!(
        ser.into_inner(),
        vec![
            0xf9, 0x3c, 0x00, 0xfa, 0x3d, 0xcc, 0xcc, 0xcd, 0xf9, 0x3e, 0x00, 0xfa, 0x47, 0xc3, 0x50, 0x00,
            0xfb, 0x3f, 0xb9, 0x99, 0x99, 0x99, 0x99, 0x99, 0x9a,
        ]
    );
}

#[test]
fn infinities_and_nan_are_canonical() {
    let mut ser = encoder();
    ser.serialize_f32(0x7f80_0000, None).unwrap();
    ser.serialize_f32(0xff80_0000, None).unwrap();
    ser.serialize_f32(0x7fc0_0001, None).unwrap();
    ser.serialize_f32(0xffc0_0000, Some(0xfe00)).unwrap();
    ser.serialize_f64(0x7ff0_0000_0000_0000, None, None).unwrap();
    ser.serialize_f64(0xfff0_0000_0000_0000, Some(0xff80_0000), Some(0xfc00)).unwrap();
    ser.serialize_f64(0x7ff8_0000_0000_0001, None, None).unwrap();
    assert_eq!(
        ser.into_inner(),
        vec![
            0xf9, 0x7c, 0x00, 0xf9, 0xfc, 0x00, 0xf9, 0x7e, 0x00, 0xf9, 0x7e, 0x00, 0xf9, 0x7c, 0x00, 0xf9,
            0xfc, 0x00, 0xf9, 0x7e, 0x00,
        ]
    );
    assert_eq!(Float::from_single(0x7f80_0000, Some(1)), Float::Half(0x7c00));
    assert_eq!(Float::from_double(0x3ff0_0000_0000_0000, None, Some(0x3c00)), Float::Double(0x3ff0_0000_0000_0000));
}

#[test]
fn floats_in_each_width() {
    let mut ser = encoder();
    ser.write_float(Float::Half(0x3c00)).unwrap();
    ser.write_float(Float::Single(0x3f80_0000)).unwrap();
    ser.write_float(Float::Double(0x3ff0_0000_0000_0000)).unwrap();
    assert_eq!(
        ser.into_inner(),
        vec![
            0xf9, 0x3c, 0x00, 0xfa, 0x3f, 0x80, 0x00, 0x00, 0xfb, 0x3f, 0xf0, 0x00, 0x00, 0x00, 0x00, 0x00,
            0x00,
        ]
    );
}

#[test]
fn strings_and_bytes() {
    let mut ser = encoder();
    ser.serialize_str("foobar").unwrap();
    ser.serialize_str("").unwrap();
    ser.serialize_bytes(&[1, 2, 3]).unwrap();
    ser.serialize_str("0123456789012345678901234").unwrap();
    let out = ser.into_inner();
    assert_eq!(&out[..12], &[0x66, 0x66, 0x6f, 0x6f, 0x62, 0x61, 0x72, 0x60, 0x43, 1, 2, 3][..]);
    assert_eq!(&out[12..14], &[0x78, 25][..]);
    assert_eq!(out.len(), 14 + 25);
}

#[test]
fn characters_are_text_in_utf8() {
    let mut ser = encoder();
    ser.serialize_char('a').unwrap();
    ser.serialize_char('\u{e9}').unwrap();
    ser.serialize_char('\u{20ac}').unwrap();
    ser.serialize_char('\u{1f600}').unwrap();
    assert_eq!(
        ser.into_inner(),
        vec![0x61, 0x61, 0x62, 0xc3, 0xa9, 0x63, 0xe2, 0x82, 0xac, 0x64, 0xf0, 0x9f, 0x98, 0x80]
    );
}

#[test]
fn unit_variants_by_name_or_index() {
    let mut named = encoder();
    named.serialize_unit_variant("Enum", 3, "Unit").unwrap();
    assert_eq!(named.into_inner(), vec![0x64, 0x55, 0x6e, 0x69, 0x74]);
    let mut packed = encoder().packed_format();
    packed.serialize_unit_variant("Enum", 3, "Unit").unwrap();
    assert_eq!(packed.into_inner(), vec![0x03]);
}

#[test]
fn newtype_structs_bear_pending_tags() {
    let mut ser = encoder();
    ser.serialize_newtype_struct("\0cbor_tag", Some(55799)).unwrap();
    ser.serialize_newtype_struct("\0cbor_tag", None).unwrap();
    ser.serialize_newtype_struct("Wrapper", Some(1)).unwrap();
    ser.serialize_newtype_struct("\0cbor_tah", Some(1)).unwrap();
    ser.serialize_newtype_struct("\0cbor_tag", Some(1)).unwrap();
    assert_eq!(ser.into_inner(), vec![0xd9, 0xd9, 0xf7, 0xc1]);
    assert!(serde_cbor::ser::is_tag_name("\0cbor_tag"));
    assert!(!serde_cbor::ser::is_tag_name("cbor_tag"));
}

#[test]
fn newtype_variants_in_both_forms() {
    let mut standard = encoder();
    standard.serialize_newtype_variant("Enum", 1, "New").unwrap();
    assert_eq!(standard.into_inner(), vec![0xa1, 0x63, 0x4e, 0x65, 0x77]);
    // Where names are packed the variant goes by its index in either form.
    let mut packed = encoder().packed_format();
    packed.serialize_newtype_variant("Enum", 1, "New").unwrap();
    assert_eq!(packed.into_inner(), vec![0xa1, 0x01]);
    let mut legacy = encoder().legacy_enums();
    legacy.serialize_newtype_variant("Enum", 1, "New").unwrap();
    assert_eq!(legacy.into_inner(), vec![0x82, 0x63, 0x4e, 0x65, 0x77]);
    let mut both = encoder().legacy_enums().packed_format();
    both.serialize_newtype_variant("Enum", 1, "New").unwrap();
    assert_eq!(both.into_inner(), vec![0x82, 0x01]);
}

#[test]
fn tuple_variants_in_both_forms() {
    let mut standard = encoder();
    standard.serialize_tuple_variant("Enum", 2, "T", 2).unwrap();
    assert_eq!(standard.into_inner(), vec![0xa1, 0x61, 0x54, 0x82]);
    let mut packed = encoder().packed_format();
    packed.serialize_tuple_variant("Enum", 2, "T", 2).unwrap();
    assert_eq!(packed.into_inner(), vec![0xa1, 0x02, 0x82]);
    let mut legacy = encoder().legacy_enums();
    legacy.serialize_tuple_variant("Enum", 2, "T", 2).unwrap();
    assert_eq!(legacy.into_inner(), vec![0x83, 0x61, 0x54]);
    let mut both = encoder().packed_format().legacy_enums();
    both.serialize_tuple_variant("Enum", 2, "T", 2).unwrap();
    assert_eq!(both.into_inner(), vec![0x83, 0x02]);
}

#[test]
fn struct_variants_in_both_forms() {
    let mut standard = encoder();
    {
        let mut fields = standard.serialize_struct_variant("Enum", 3, "S", 2).unwrap();
        assert_eq!(fields.idx, 0);
        fields.serialize_field_inner("x").unwrap();
        fields.ser.serialize_i32(5).unwrap();
        fields.serialize_field_inner("y").unwrap();
        fields.ser.serialize_i32(-5).unwrap();
        fields.end_inner().unwrap();
    }
    assert_eq!(
        standard.into_inner(),
        vec![0xa1, 0x61, 0x53, 0xa2, 0x61, 0x78, 0x05, 0x61, 0x79, 0x24]
    );
    let mut legacy = encoder().legacy_enums().packed_format();
    {
        let mut fields = legacy.serialize_struct_variant("Enum", 3, "S", 2).unwrap();
        fields.serialize_field_inner("x").unwrap();
        fields.ser.serialize_i32(5).unwrap();
        fields.skip_field_inner("skipped").unwrap();
        fields.serialize_field_inner("y").unwrap();
        fields.ser.serialize_i32(-5).unwrap();
        assert_eq!(fields.idx, 3);
        fields.end_inner().unwrap();
    }
    assert_eq!(legacy.into_inner(), vec![0x82, 0x03, 0xa2, 0x00, 0x05, 0x02, 0x24]);
}

#[test]
fn collections_with_and_without_length() {
    let mut ser = encoder();
    {
        let seq = ser.serialize_seq(Some(2)).unwrap();
        assert!(!seq.needs_eof);
        seq.ser.serialize_u8(1).unwrap();
        seq.ser.serialize_u8(2).unwrap();
        seq.end_inner().unwrap();
    }
    {
        let seq = ser.serialize_seq(None).unwrap();
        assert!(seq.needs_eof);
        seq.ser.serialize_u8(1).unwrap();
        seq.end_inner().unwrap();
    }
    {
        let map = ser.serialize_map(Some(1)).unwrap();
        map.ser.serialize_str("a").unwrap();
        map.ser.serialize_u8(1).unwrap();
        map.end_inner().unwrap();
    }
    {
        let map = ser.serialize_map(None).unwrap();
        map.end_inner().unwrap();
    }
    {
        let map = ser.serialize_collection(5, Some(0)).unwrap();
        map.end_inner().unwrap();
    }
    ser.serialize_tuple(3).unwrap();
    ser.serialize_tuple_struct("T", 1).unwrap();
    assert_eq!(
        ser.into_inner(),
        vec![0x82, 0x01, 0x02, 0x9f, 0x01, 0xff, 0xa1, 0x61, 0x61, 0x01, 0xbf, 0xff, 0xa0, 0x83, 0x81]
    );
}

#[test]
fn structs_by_name_or_index() {
    let mut named = encoder();
    {
        let mut fields = named.serialize_struct("S", 1).unwrap();
        fields.serialize_field_inner("a").unwrap();
        fields.ser.serialize_bool(true).unwrap();
        fields.end_inner().unwrap();
    }
    assert_eq!(named.into_inner(), vec![0xa1, 0x61, 0x61, 0xf5]);
    let mut packed = encoder().packed_format();
    {
        let mut fields = packed.serialize_struct("S", 2).unwrap();
        fields.serialize_field_inner("a").unwrap();
        fields.ser.serialize_bool(true).unwrap();
        fields.serialize_field_inner("b").unwrap();
        fields.ser.serialize_bool(false).unwrap();
        fields.end_inner().unwrap();
    }
    assert_eq!(packed.into_inner(), vec![0xa2, 0x00, 0xf5, 0x01, 0xf4]);
}

#[test]
fn self_describe_writes_the_tag() {
    let mut ser = encoder();
    ser.self_describe().unwrap();
    ser.serialize_u8(1).unwrap();
    assert_eq!(ser.into_inner(), vec![0xd9, 0xd9, 0xf7, 0x01]);
}

#[test]
fn encoder_options() {
    let options = CustomSerializerOptions::new();
    assert!(!options.packed());
    assert!(options.enum_as_map());
    let options = options.set_packed(true).set_emum_as_map(false);
    assert!(options.packed());
    assert!(!options.enum_as_map());
    let custom = options.to_custom();
    assert!(custom.packed());
    assert!(!custom.enum_as_map());
    let mut ser = Serializer::new_with_options(Vec::new(), custom);
    ser.serialize_newtype_variant("E", 7, "V").unwrap();
    assert_eq!(ser.into_inner(), vec![0x82, 0x07]);
}

#[test]
fn a_slice_takes_what_fits() {
    let mut buf = [0u8; 4];
    let mut sink = SliceWrite::new(&mut buf);
    assert_eq!(sink.write_all(&[1, 2, 3]), Ok(()));
    assert_eq!(sink.bytes_written(), 3);
    let e = sink.write_all(&[4, 5]).unwrap_err();
    assert_eq!(e.code, ErrorCode::ScratchTooSmall);
    assert_eq!(e.offset, 3);
    assert_eq!(sink.bytes_written(), 3);
    assert_eq!(sink.write_all(&[4]), Ok(()));
    assert_eq!(sink.bytes_written(), 4);
    assert_eq!(buf, [1, 2, 3, 4]);
}

#[test]
fn an_encoder_on_a_slice_stops_at_the_chunk_that_does_not_fit() {
    let mut buf = [0u8; 4];
    {
        let mut ser = Serializer::new(SliceWrite::new(&mut buf));
        ser.serialize_u8(1).unwrap();
        let e = ser.serialize_str("abc").unwrap_err();
        assert_eq!(e.code, ErrorCode::ScratchTooSmall);
        assert_eq!(e.offset, 2);
        assert_eq!(ser.into_inner().bytes_written(), 2);
    }
    assert_eq!(&buf[..2], &[0x01, 0x63][..]);
}
