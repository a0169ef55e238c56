use tobu::error::DecodeError;
use tobu::field::FieldNumber;
use tobu::wire::{FieldValue, Parser, WireField, WireType, decode_zig_zag, encode_zig_zag, put_bytes,
    put_fixed32, put_fixed64, put_tag, put_varint, size_bytes, size_fixed32, size_fixed64,
    size_group, size_tag, size_varint};

#[test]
fn field_number() {
    assert_eq!(FieldNumber::default().get(), 1);
    assert!(matches!(FieldNumber::try_from(-1), Err(_)));
    assert!(matches!(FieldNumber::try_from(0), Err(_)));
    assert!(matches!(FieldNumber::try_from(1), Ok(_)));
    assert!(matches!(FieldNumber::try_from(18999), Ok(_)));
    assert!(matches!(FieldNumber::try_from(19000), Err(_)));
    assert!(matches!(FieldNumber::try_from(19999), Err(_)));
    assert!(matches!(FieldNumber::try_from(20000), Ok(_)));
    assert!(matches!(FieldNumber::try_from((1 << 29) - 1), Ok(_)));
    assert!(matches!(FieldNumber::try_from(1 << 29), Err(_)));
}

#[test]
fn test_wire_field() {
    let mut buf: Vec<u8> = Vec::new();

    let num1 = FieldNumber::try_from(1).unwrap();
    put_tag(&mut buf, num1, WireType::Varint);
    let val1 = 0x123456789;
    put_varint(&mut buf, val1);

    let num2 = FieldNumber::try_from(2).unwrap();
    put_tag(&mut buf, num2, WireType::Fixed32);
    let val2 = 0x1234;
    put_fixed32(&mut buf, val2);

    let num3 = FieldNumber::try_from(3).unwrap();
    put_tag(&mut buf, num3, WireType::Fixed64);
    let val3 = 0x123456789;
    put_fixed64(&mut buf, val3);

    let num4 = FieldNumber::try_from(4).unwrap();
    put_tag(&mut buf, num4, WireType::Bytes);
    let val4 = b"hello".to_vec();
    put_bytes(&mut buf, &val4);

    let mut parser = Parser::new(buf);
    assert_eq!(
        parser.next().unwrap().unwrap(),
        WireField { num: num1, val: FieldValue::Varint(val1) }
    );
    assert_eq!(
        parser.next().unwrap().unwrap(),
        WireField { num: num2, val: FieldValue::Fixed32(val2) }
    );
    assert_eq!(
        parser.next().unwrap().unwrap(),
        WireField { num: num3, val: FieldValue::Fixed64(val3) }
    );
    assert_eq!(
        parser.next().unwrap().unwrap(),
        WireField { num: num4, val: FieldValue::Bytes(val4) }
    );
}

#[test]
fn test_wire_group() {
    let mut buf: Vec<u8> = Vec::new();

    let group_num = FieldNumber::try_from(5000).unwrap();
    put_tag(&mut buf, group_num, WireType::StartGroup);

    let num = FieldNumber::try_from(1).unwrap();
    put_tag(&mut buf, num, WireType::Varint);
    let val = 0x123456789;
    put_varint(&mut buf, val);

    put_tag(&mut buf, group_num, WireType::EndGroup);

    let mut parser = Parser::new(buf);
    assert_eq!(
        parser.next().unwrap().unwrap(),
        WireField { num: group_num, val: FieldValue::StartGroup }
    );
    assert_eq!(
        parser.next().unwrap().unwrap(),
        WireField { num, val: FieldValue::Varint(val) }
    );
    assert_eq!(
        parser.next().unwrap().unwrap(),
        WireField { num: group_num, val: FieldValue::EndGroup }
    );
}

#[test]
fn test_wire_group_nested() {
    let mut buf: Vec<u8> = Vec::new();

    let num = FieldNumber::try_from(1).unwrap();
    put_tag(&mut buf, num, WireType::StartGroup);

    let nested_num = FieldNumber::try_from(2).unwrap();
    put_tag(&mut buf, nested_num, WireType::StartGroup);

    put_tag(&mut buf, nested_num, WireType::EndGroup);

    let mut parser = Parser::new(buf);
    assert_eq!(
        parser.next().unwrap().unwrap(),
        WireField { num, val: FieldValue::StartGroup }
    );
    assert_eq!(
        parser.next().unwrap().unwrap(),
        WireField { num: nested_num, val: FieldValue::StartGroup }
    );
    assert_eq!(
        parser.next().unwrap().unwrap(),
        WireField { num: nested_num, val: FieldValue::EndGroup }
    );
}

#[test]
fn test_wire_group_empty() {
    let mut buf: Vec<u8> = Vec::new();

    let num = FieldNumber::try_from(1).unwrap();
    put_tag(&mut buf, num, WireType::StartGroup);

    put_tag(&mut buf, num, WireType::EndGroup);

    let mut parser = Parser::new(buf);
    assert_eq!(
        parser.next().unwrap().unwrap(),
        WireField { num, val: FieldValue::StartGroup }
    );
    assert_eq!(
        parser.next().unwrap().unwrap(),
        WireField { num, val: FieldValue::EndGroup }
    );
}

#[test]
fn test_wire_group_denormalized() {
    let mut buf: Vec<u8> = Vec::new();

    let num = FieldNumber::try_from(5).unwrap();
    put_tag(&mut buf, num, WireType::Fixed32);

    let val = 0xf0e1d2c3;
    put_fixed32(&mut buf, val);

    // a denormalized end-group tag, written by hand
    buf.extend_from_slice(b"\xac\x80\x80\x00");

    let mut parser = Parser::new(buf);
    assert_eq!(
        parser.next().unwrap().unwrap(),
        WireField { num, val: FieldValue::Fixed32(val) }
    );
    assert_eq!(
        parser.next().unwrap().unwrap(),
        WireField { num, val: FieldValue::EndGroup }
    );
}

#[test]
fn test_wire_varint_eof() {
    let values: Vec<&[u8]> = vec![
        b"\x80",
        b"\x80\x80",
        b"\x80\x80\x80",
        b"\x80\x80\x80\x80",
        b"\x80\x80\x80\x80\x80",
        b"\x80\x80\x80\x80\x80\x80\x80",
        b"\x80\x80\x80\x80\x80\x80\x80\x80",
        b"\x80\x80\x80\x80\x80\x80\x80\x80\x80",
    ];

    for val in values {
        let mut buf: Vec<u8> = Vec::new();

        let num = FieldNumber::try_from(1).unwrap();
        put_tag(&mut buf, num, WireType::Varint);

        buf.extend_from_slice(val);

        assert!(matches!(Parser::new(buf).next().unwrap(), Err(DecodeError::Eof)));
    }
}

#[test]
fn test_wire_varint_overflow_significant_bits() {
    let mut buf: Vec<u8> = Vec::new();

    let num = FieldNumber::try_from(1).unwrap();
    put_tag(&mut buf, num, WireType::Varint);

    // too many bytes with significant bits
    buf.extend_from_slice(b"\x80\x80\x80\x80\x80\x80\x80\x80\x80\x80");

    assert!(matches!(Parser::new(buf).next().unwrap(), Err(DecodeError::Overflow)));
}

#[test]
fn test_wire_varint_overflow_u64_max_plus_one() {
    let mut buf: Vec<u8> = Vec::new();

    let num = FieldNumber::try_from(1).unwrap();
    put_tag(&mut buf, num, WireType::Varint);

    // exceeds u64::MAX
    buf.extend_from_slice(b"\xff\xff\xff\xff\xff\xff\xff\xff\xff\x02");

    assert!(matches!(Parser::new(buf).next().unwrap(), Err(DecodeError::Overflow)));
}

#[test]
fn test_wire_varint_boundaries() {
    let values = vec![
        0x00u64,
        0x01,
        0x7f,
        0x80,
        0x3f_ff,
        0x40_00,
        0x1f_ff_ff,
        0x20_00_00,
        0x0f_ff_ff_ff,
        0x10_00_00_00,
        0x07_ff_ff_ff_ff,
        0x08_00_00_00_00,
        0x03_ff_ff_ff_ff_ff,
        0x04_00_00_00_00_00,
        0x01_ff_ff_ff_ff_ff_ff,
        0x02_00_00_00_00_00_00,
        0xff_ff_ff_ff_ff_ff_ff,
        0x01_00_00_00_00_00_00_00,
        0x7f_ff_ff_ff_ff_ff_ff_ff,
        0x80_00_00_00_00_00_00_00,
    ];

    for val in values {
        let mut buf: Vec<u8> = Vec::new();

        let num = FieldNumber::try_from(1).unwrap();
        put_tag(&mut buf, num, WireType::Varint);

        put_varint(&mut buf, val);

        assert_eq!(
            Parser::new(buf).next().unwrap().unwrap(),
            WireField { num, val: FieldValue::Varint(val) }
        );
    }
}

#[test]
fn test_wire_varint_max() {
    let mut buf: Vec<u8> = Vec::new();

    let num = FieldNumber::try_from(1).unwrap();
    put_tag(&mut buf, num, WireType::Varint);

    put_varint(&mut buf, u64::MAX);

    assert_eq!(
        Parser::new(buf).next().unwrap().unwrap(),
        WireField { num, val: FieldValue::Varint(u64::MAX) }
    );
}

#[test]
fn test_wire_varint_denormalized() {
    let values: Vec<&[u8]> = vec![
        b"\x01",
        b"\x81\x00",
        b"\x81\x80\x00",
        b"\x81\x80\x80\x00",
        b"\x81\x80\x80\x80\x00",
        b"\x81\x80\x80\x80\x80\x80\x00",
        b"\x81\x80\x80\x80\x80\x80\x80\x00",
        b"\x81\x80\x80\x80\x80\x80\x80\x80\x00",
    ];

    for val in values {
        let mut buf: Vec<u8> = Vec::new();

        let num = FieldNumber::try_from(1).unwrap();
        put_tag(&mut buf, num, WireType::Varint);

        buf.extend_from_slice(val);

        assert_eq!(
            Parser::new(buf).next().unwrap().unwrap(),
            WireField { num, val: FieldValue::Varint(1) }
        );
    }
}

#[test]
fn varint_size() {
    let mut buf: Vec<u8> = Vec::new();
    put_varint(&mut buf, u64::MIN);
    put_varint(&mut buf, u64::MAX);

    assert_eq!(size_varint(u64::MIN) + size_varint(u64::MAX), buf.len());
}

#[test]
fn test_wire_bytes_eof() {
    let values: Vec<&[u8]> = vec![b"", b"\x01", b"\x05hell"];

    for val in values {
        let mut buf: Vec<u8> = Vec::new();

        let num = FieldNumber::try_from(1).unwrap();
        put_tag(&mut buf, num, WireType::Bytes);

        buf.extend_from_slice(val);

        assert!(matches!(Parser::new(buf).next().unwrap(), Err(DecodeError::Eof)));
    }
}

#[test]
fn test_wire_bytes_empty() {
    let mut buf: Vec<u8> = Vec::new();

    let num = FieldNumber::try_from(1).unwrap();
    put_tag(&mut buf, num, WireType::Bytes);

    put_bytes(&mut buf, b"");

    assert_eq!(
        Parser::new(buf).next().unwrap().unwrap(),
        WireField { num, val: FieldValue::Bytes(Vec::new()) }
    );
}

#[test]
fn test_wire_bytes_small() {
    let mut buf: Vec<u8> = Vec::new();

    let num = FieldNumber::try_from(1).unwrap();
    put_tag(&mut buf, num, WireType::Bytes);

    let val = b"hello".to_vec();
    put_bytes(&mut buf, &val);

    assert_eq!(
        Parser::new(buf).next().unwrap().unwrap(),
        WireField { num, val: FieldValue::Bytes(val) }
    );
}

#[test]
fn test_wire_bytes_large() {
    let mut buf: Vec<u8> = Vec::new();

    let num = FieldNumber::try_from(1).unwrap();
    put_tag(&mut buf, num, WireType::Bytes);

    let val = b"hello".repeat(50);
    put_bytes(&mut buf, &val);

    assert_eq!(
        Parser::new(buf).next().unwrap().unwrap(),
        WireField { num, val: FieldValue::Bytes(val) }
    );
}

#[test]
fn bytes_size() {
    let mut buf: Vec<u8> = Vec::new();

    let val = b"\x01\x02\x03";
    put_bytes(&mut buf, val);

    assert_eq!(size_bytes(val.len()), buf.len());
}

#[test]
fn test_wire_fixed32_eof() {
    let mut buf: Vec<u8> = Vec::new();

    let num = FieldNumber::try_from(1).unwrap();
    put_tag(&mut buf, num, WireType::Fixed32);

    buf.extend_from_slice(b"\x01\x02\x03");

    assert!(matches!(Parser::new(buf).next().unwrap(), Err(DecodeError::Eof)));
}

#[test]
fn test_wire_fixed32_min() {
    let mut buf: Vec<u8> = Vec::new();

    let num = FieldNumber::try_from(1).unwrap();
    put_tag(&mut buf, num, WireType::Fixed32);

    let val = 0;
    put_fixed32(&mut buf, val);

    assert_eq!(
        Parser::new(buf).next().unwrap().unwrap(),
        WireField { num, val: FieldValue::Fixed32(val) }
    );
}

#[test]
fn test_wire_fixed32_max() {
    let mut buf: Vec<u8> = Vec::new();

    let num = FieldNumber::try_from(1).unwrap();
    put_tag(&mut buf, num, WireType::Fixed32);

    let val = u32::MAX;
    put_fixed32(&mut buf, val);

    assert_eq!(
        Parser::new(buf).next().unwrap().unwrap(),
        WireField { num, val: FieldValue::Fixed32(val) }
    );
}

#[test]
fn test_wire_fixed32() {
    let mut buf: Vec<u8> = Vec::new();

    let num = FieldNumber::try_from(1).unwrap();
    put_tag(&mut buf, num, WireType::Fixed32);

    let val = 0xf0_e1_d2_c3;
    put_fixed32(&mut buf, val);

    assert_eq!(
        Parser::new(buf).next().unwrap().unwrap(),
        WireField { num, val: FieldValue::Fixed32(val) }
    );
}

#[test]
fn fixed32_size() {
    let mut buf: Vec<u8> = Vec::new();

    put_fixed32(&mut buf, u32::MAX);

    assert_eq!(size_fixed32(), buf.len());
}

#[test]
fn test_wire_fixed64_eof() {
    let mut buf: Vec<u8> = Vec::new();

    let num = FieldNumber::try_from(1).unwrap();
    put_tag(&mut buf, num, WireType::Fixed64);

    buf.extend_from_slice(b"\x01\x02\x03\x04\x05");

    assert!(matches!(Parser::new(buf).next().unwrap(), Err(DecodeError::Eof)));
}

#[test]
fn test_wire_fixed64_min() {
    let mut buf: Vec<u8> = Vec::new();

    let num = FieldNumber::try_from(1).unwrap();
    put_tag(&mut buf, num, WireType::Fixed64);

    let val = 0;
    put_fixed64(&mut buf, val);

    assert_eq!(
        Parser::new(buf).next().unwrap().unwrap(),
        WireField { num, val: FieldValue::Fixed64(val) }
    );
}

#[test]
fn test_wire_fixed64_max() {
    let mut buf: Vec<u8> = Vec::new();

    let num = FieldNumber::try_from(1).unwrap();
    put_tag(&mut buf, num, WireType::Fixed64);

    let val = 0xff_ff_ff_ff_ff_ff_ff_ff;
    put_fixed64(&mut buf, val);

    assert_eq!(
        Parser::new(buf).next().unwrap().unwrap(),
        WireField { num, val: FieldValue::Fixed64(val) }
    );
}

#[test]
fn test_wire_fixed64() {
    let mut buf: Vec<u8> = Vec::new();

    let num = FieldNumber::try_from(1).unwrap();
    put_tag(&mut buf, num, WireType::Fixed64);

    let val = 0xf0_e1_d2_c3_b4_a5_96_87;
    put_fixed64(&mut buf, val);

    assert_eq!(
        Parser::new(buf).next().unwrap().unwrap(),
        WireField { num, val: FieldValue::Fixed64(val) }
    );
}

#[test]
fn fixed64_size() {
    let mut buf: Vec<u8> = Vec::new();

    put_fixed64(&mut buf, u64::MAX);

    assert_eq!(size_fixed64(), buf.len());
}

#[test]
fn test_wire_tag_eof() {
    assert!(matches!(
        Parser::new(b"\x80".to_vec()).next().unwrap(),
        Err(DecodeError::Eof)
    ));
}

#[test]
fn test_wire_tag_invalid_field_type() {
    // num = 1, typ = 6
    assert!(matches!(
        Parser::new(b"\x0e".to_vec()).next().unwrap(),
        Err(DecodeError::InvalidWireType(6))
    ));
}

#[test]
fn test_wire_tag_invalid_field_number() {
    let values: Vec<i32> = vec![0, 19000, 19999, 1 << 29];

    for val in values {
        let mut buf: Vec<u8> = Vec::new();

        // the tag varint of an illegal number, written directly
        put_varint(&mut buf, (val as u64) << 3);

        assert!(matches!(
            Parser::new(buf).next().unwrap(),
            Err(DecodeError::InvalidFieldNumber(_))
        ));
    }
}

#[test]
fn tag_high_bits_rejected() {
    // a legal 6-byte tag varint whose field-number part is 2^32 + 1:
    // the full high bits are validated, so this is no alias of field 1
    let mut buf: Vec<u8> = Vec::new();
    put_varint(&mut buf, ((1u64 << 32) + 1) << 3);
    assert!(matches!(
        Parser::new(buf).next().unwrap(),
        Err(DecodeError::InvalidFieldNumber(_))
    ));

    // the same one bit past the legal range exactly
    let mut buf: Vec<u8> = Vec::new();
    put_varint(&mut buf, 0x2000_0000u64 << 3);
    assert!(matches!(
        Parser::new(buf).next().unwrap(),
        Err(DecodeError::InvalidFieldNumber(_))
    ));
}

#[test]
fn parser_ends_on_empty_input() {
    // an empty buffer terminates at once
    let mut parser = Parser::new(Vec::new());
    assert!(parser.next().is_none());

    // and after the last token the parser yields None, not an error
    let mut buf: Vec<u8> = Vec::new();
    let num = FieldNumber::try_from(5).unwrap();
    put_tag(&mut buf, num, WireType::Fixed32);
    put_fixed32(&mut buf, 0xf0e1d2c3);
    buf.extend_from_slice(b"\xac\x80\x80\x00");
    let mut parser = Parser::new(buf);
    assert_eq!(
        parser.next().unwrap().unwrap(),
        WireField { num, val: FieldValue::Fixed32(0xf0e1d2c3) }
    );
    assert_eq!(
        parser.next().unwrap().unwrap(),
        WireField { num, val: FieldValue::EndGroup }
    );
    assert!(parser.next().is_none());
}

#[test]
fn test_wire_tag_min() {
    let mut buf: Vec<u8> = Vec::new();

    let min = FieldNumber::try_from(1).unwrap();
    put_tag(&mut buf, min, WireType::Fixed32);

    let val = 1;
    put_fixed32(&mut buf, 1);

    assert_eq!(
        Parser::new(buf).next().unwrap().unwrap(),
        WireField { num: min, val: FieldValue::Fixed32(val) }
    );
}

#[test]
fn test_wire_tag_max() {
    let mut buf: Vec<u8> = Vec::new();

    let max = FieldNumber::try_from((1 << 29) - 1).unwrap();
    put_tag(&mut buf, max, WireType::Fixed32);

    let val = 1;
    put_fixed32(&mut buf, 1);

    assert_eq!(
        Parser::new(buf).next().unwrap().unwrap(),
        WireField { num: max, val: FieldValue::Fixed32(val) }
    );
}

#[test]
fn tag_size() {
    let mut buf: Vec<u8> = Vec::new();

    let min = FieldNumber::try_from(1).unwrap();
    put_tag(&mut buf, min, WireType::Fixed32);

    let max = FieldNumber::try_from((1 << 29) - 1).unwrap();
    put_tag(&mut buf, max, WireType::Fixed32);

    assert_eq!(size_tag(min) + size_tag(max), buf.len());
}

#[test]
fn group_size() {
    let mut buf: Vec<u8> = Vec::new();

    let num = FieldNumber::try_from(5000).unwrap();
    put_tag(&mut buf, num, WireType::EndGroup);

    assert_eq!(size_group(num, 3), buf.len() + 3);
}

#[test]
fn zig_zag() {
    let values: Vec<(i64, u64)> = vec![
        (i64::MIN, u64::MAX),
        (i64::MIN + 1, u64::MAX - 2),
        (-1, 1),
        (0, 0),
        (1, 2),
        (i64::MAX - 1, u64::MAX - 3),
        (i64::MAX, u64::MAX - 1),
    ];

    for (dec, enc) in values {
        assert_eq!(encode_zig_zag(dec), enc);
        assert_eq!(decode_zig_zag(enc), dec);
    }
}

#[test]
fn test_wire_zig_zag() {
    let values: Vec<(i64, u64)> = vec![
        (i64::MIN, u64::MAX),
        (i64::MIN + 1, u64::MAX - 2),
        (-1, 1),
        (0, 0),
        (1, 2),
        (i64::MAX - 1, u64::MAX - 3),
        (i64::MAX, u64::MAX - 1),
    ];

    for (dec, enc) in values {
        assert_eq!(encode_zig_zag(dec), enc);
        assert_eq!(decode_zig_zag(enc), dec);
    }
}
