use tobu::de::from_vec;
use tobu::error::Error;
use tobu::field::FieldNumber;
use tobu::info::{Cardinality, EnumInfo, FieldInfo, MessageInfo, Syntax, Type};
use tobu::ser::{serialized_size, to_vec};
use tobu::value::Value;
use tobu::wire::{WireType, put_bytes, put_tag, put_varint};
use tobu::{to_bytes, to_bytes_mut};

fn field(name: &str, number: i32, ty: Type) -> FieldInfo {
    FieldInfo {
        name: name.to_string(),
        number: FieldNumber::new(number),
        cardinality: Cardinality::Optional,
        ty,
        ty_name: String::new(),
        json_name: name.to_string(),
        packed: false,
        oneof_index: None,
        message_info: None,
        enum_info: None,
    }
}

fn message(name: &str, syntax: Syntax, fields: Vec<FieldInfo>) -> MessageInfo {
    MessageInfo { name: name.to_string(), fields, syntax, is_map: false }
}

fn basic_scalar_info() -> MessageInfo {
    let mut fields = vec![
        field("optional_int32", 1, Type::Int32),
        field("optional_int64", 2, Type::Int64),
        field("optional_uint32", 3, Type::Uint32),
        field("optional_uint64", 4, Type::Uint64),
        field("optional_sint32", 5, Type::SInt32),
        field("optional_sint64", 6, Type::SInt64),
        field("optional_fixed32", 7, Type::Fixed32),
        field("optional_fixed64", 8, Type::Fixed64),
        field("optional_sfixed32", 9, Type::SFixed32),
        field("optional_sfixed64", 10, Type::SFixed64),
        field("optional_float", 11, Type::Float),
        field("optional_double", 12, Type::Double),
        field("optional_bool", 13, Type::Bool),
        field("optional_string", 14, Type::String),
        field("optional_bytes", 15, Type::Bytes),
        field("optional_nested_enum", 21, Type::Enum),
    ];
    fields[15].enum_info = Some(EnumInfo { name: "NestedEnum".to_string(), value: Vec::new() });
    message("BasicScalarTypes", Syntax::Proto3, fields)
}

fn basic_scalar_value() -> Value {
    Value::Message(vec![
        Value::I32(1001),
        Value::I64(1002),
        Value::U32(1003),
        Value::U64(1004),
        Value::I32(-1005),
        Value::I64(-1006),
        Value::U32(1007),
        Value::U64(1008),
        Value::I32(1009),
        Value::I64(1010),
        Value::F32(1011.0f32.to_bits()),
        Value::F64(1012.0f64.to_bits()),
        Value::Bool(true),
        Value::String("string".to_string()),
        Value::Bytes(b"bytes".to_vec()),
        Value::Enum(1),
    ])
}

fn basic_scalar_bytes() -> Vec<u8> {
    vec![
        0x08, 0xe9, 0x07, 0x10, 0xea, 0x07, 0x18, 0xeb, 0x07, 0x20, 0xec, 0x07, 0x28, 0xd9, 0x0f,
        0x30, 0xdb, 0x0f, 0x3d, 0xef, 0x03, 0x00, 0x00, 0x41, 0xf0, 0x03, 0x00, 0x00, 0x00, 0x00,
        0x00, 0x00, 0x4d, 0xf1, 0x03, 0x00, 0x00, 0x51, 0xf2, 0x03, 0x00, 0x00, 0x00, 0x00, 0x00,
        0x00, 0x5d, 0x00, 0xc0, 0x7c, 0x44, 0x61, 0x00, 0x00, 0x00, 0x00, 0x00, 0xa0, 0x8f, 0x40,
        0x68, 0x01, 0x72, 0x06, 0x73, 0x74, 0x72, 0x69, 0x6e, 0x67, 0x7a, 0x05, 0x62, 0x79, 0x74,
        0x65, 0x73, 0xa8, 0x01, 0x01,
    ]
}

#[test]
fn tag_min_max_bytes() {
    let mut buf: Vec<u8> = Vec::new();
    put_tag(&mut buf, FieldNumber::new(1), WireType::Fixed32);
    assert_eq!(buf, vec![0x0d]);

    let mut buf: Vec<u8> = Vec::new();
    put_tag(&mut buf, FieldNumber::new((1 << 29) - 1), WireType::Fixed32);
    assert_eq!(buf, vec![0xfd, 0xff, 0xff, 0xff, 0x0f]);
}

#[test]
fn varint_boundary_bytes() {
    let mut buf: Vec<u8> = Vec::new();
    put_varint(&mut buf, 0x80);
    assert_eq!(buf, vec![0x80, 0x01]);

    let mut buf: Vec<u8> = Vec::new();
    put_varint(&mut buf, 0x4000);
    assert_eq!(buf, vec![0x80, 0x80, 0x01]);

    let mut buf: Vec<u8> = Vec::new();
    put_varint(&mut buf, u64::MAX);
    assert_eq!(buf, vec![0xff, 0xff, 0xff, 0xff, 0xff, 0xff, 0xff, 0xff, 0xff, 0x01]);
}

#[test]
fn bytes_field_round_trip() {
    let mut buf: Vec<u8> = Vec::new();
    put_tag(&mut buf, FieldNumber::new(1), WireType::Bytes);
    put_bytes(&mut buf, b"hello");
    assert_eq!(buf, vec![0x0a, 0x05, 0x68, 0x65, 0x6c, 0x6c, 0x6f]);

    let info = message("Holder", Syntax::Proto3, vec![field("payload", 1, Type::Bytes)]);
    let decoded = from_vec(&buf, &info).unwrap();
    assert_eq!(decoded, Value::Message(vec![Value::Bytes(b"hello".to_vec())]));
}

#[test]
fn basic_scalar_encode() {
    let info = basic_scalar_info();
    let value = basic_scalar_value();
    assert_eq!(to_vec(&value, &info).unwrap(), basic_scalar_bytes());
    assert_eq!(serialized_size(&value, &info).unwrap(), basic_scalar_bytes().len());
}

#[test]
fn basic_scalar_decode() {
    let info = basic_scalar_info();
    let decoded = from_vec(&basic_scalar_bytes(), &info).unwrap();
    assert_eq!(decoded, basic_scalar_value());
}

#[test]
fn basic_scalar_round_trip() {
    let info = basic_scalar_info();
    let value = basic_scalar_value();
    let encoded = to_vec(&value, &info).unwrap();
    assert_eq!(from_vec(&encoded, &info).unwrap(), value);
}

#[test]
fn nested_size_agreement() {
    let inner = message("Inner", Syntax::Proto3, vec![field("i1", 1, Type::String)]);
    let mut s2 = field("s2", 2, Type::Message);
    s2.message_info = Some(Box::new(inner));
    let outer = message("Outer", Syntax::Proto3, vec![field("s1", 1, Type::Int32), s2]);

    let value = Value::Message(vec![
        Value::I32(1),
        Value::Message(vec![Value::String("hello".to_string())]),
    ]);
    // two bytes for the int32 field, then tag, length prefix and seven
    // body bytes for the submessage
    let size = serialized_size(&value, &outer).unwrap();
    assert_eq!(size, 11);
    assert_eq!(to_vec(&value, &outer).unwrap().len(), size);
}

#[test]
fn main() {
    let inner = message("Inner", Syntax::Proto3, vec![field("i1", 1, Type::String)]);
    let mut s2 = field("s2", 2, Type::Message);
    s2.message_info = Some(Box::new(inner));
    let outer = message("Outer", Syntax::Proto3, vec![field("s1", 1, Type::Int32), s2]);

    let s = Value::Message(vec![
        Value::I32(1),
        Value::Message(vec![Value::String("hello".to_string())]),
    ]);
    let size = serialized_size(&s, &outer).unwrap();
    assert_eq!(size, 11);
}

#[test]
fn group_matching() {
    let inner = message("G", Syntax::Proto3, Vec::new());
    let mut g = field("g", 1, Type::Group);
    g.message_info = Some(Box::new(inner));
    let info = message("Outer", Syntax::Proto3, vec![g]);

    // a well bracketed empty group parses to an empty group value
    let mut buf: Vec<u8> = Vec::new();
    put_tag(&mut buf, FieldNumber::new(1), WireType::StartGroup);
    put_tag(&mut buf, FieldNumber::new(1), WireType::EndGroup);
    let decoded = from_vec(&buf, &info).unwrap();
    assert_eq!(decoded, Value::Message(vec![Value::Message(Vec::new())]));

    // a terminator with the wrong number is fatal
    let mut buf: Vec<u8> = Vec::new();
    put_tag(&mut buf, FieldNumber::new(1), WireType::StartGroup);
    put_tag(&mut buf, FieldNumber::new(2), WireType::EndGroup);
    assert!(matches!(from_vec(&buf, &info), Err(Error::EndGroup)));
}

#[test]
fn group_round_trip() {
    let inner = message("G", Syntax::Proto3, vec![field("x", 7, Type::Uint32)]);
    let mut g = field("g", 1, Type::Group);
    g.message_info = Some(Box::new(inner));
    let info = message("Outer", Syntax::Proto3, vec![g]);

    let value = Value::Message(vec![Value::Message(vec![Value::U32(9)])]);
    let encoded = to_vec(&value, &info).unwrap();
    assert_eq!(from_vec(&encoded, &info).unwrap(), value);
}

#[test]
fn proto3_defaults_encode_empty() {
    let info = basic_scalar_info();
    let value = Value::Message(vec![
        Value::I32(0),
        Value::I64(0),
        Value::U32(0),
        Value::U64(0),
        Value::I32(0),
        Value::I64(0),
        Value::U32(0),
        Value::U64(0),
        Value::I32(0),
        Value::I64(0),
        Value::F32(0),
        Value::F64(0),
        Value::Bool(false),
        Value::String(String::new()),
        Value::Bytes(Vec::new()),
        Value::Enum(0),
    ]);
    assert_eq!(to_vec(&value, &info).unwrap(), Vec::<u8>::new());
    assert_eq!(serialized_size(&value, &info).unwrap(), 0);
}

#[test]
fn proto2_defaults_not_suppressed() {
    let info = message("M", Syntax::Proto2, vec![field("a", 1, Type::Int32)]);
    let value = Value::Message(vec![Value::I32(0)]);
    assert_eq!(to_vec(&value, &info).unwrap(), vec![0x08, 0x00]);
}

#[test]
fn last_wins_on_concatenated_encodings() {
    let info = message("M", Syntax::Proto2, vec![field("a", 1, Type::Int32)]);
    let first = to_vec(&Value::Message(vec![Value::I32(7)]), &info).unwrap();
    let second = to_vec(&Value::Message(vec![Value::I32(42)]), &info).unwrap();
    let mut joined = first;
    joined.extend_from_slice(&second);
    let decoded = from_vec(&joined, &info).unwrap();
    assert_eq!(decoded, Value::Message(vec![Value::I32(42)]));
}

#[test]
fn oneof_assignment_clears_members() {
    let mut a = field("a", 1, Type::Int32);
    a.oneof_index = Some(0);
    let mut b = field("b", 2, Type::Int32);
    b.oneof_index = Some(0);
    let info = message("M", Syntax::Proto3, vec![a, b]);

    let mut buf: Vec<u8> = Vec::new();
    put_tag(&mut buf, FieldNumber::new(1), WireType::Varint);
    put_varint(&mut buf, 5);
    put_tag(&mut buf, FieldNumber::new(2), WireType::Varint);
    put_varint(&mut buf, 6);
    let decoded = from_vec(&buf, &info).unwrap();
    assert_eq!(decoded, Value::Message(vec![Value::Unset, Value::I32(6)]));
}

#[test]
fn required_field_missing() {
    let mut a = field("a", 1, Type::Int32);
    a.cardinality = Cardinality::Required;
    let info = message("M", Syntax::Proto2, vec![a]);
    match from_vec(&Vec::new(), &info) {
        Err(Error::Required(name)) => assert_eq!(name, "a"),
        other => panic!("expected a missing-required fault, got {:?}", other),
    }
}

#[test]
fn type_mismatch_rejected() {
    let info = message("M", Syntax::Proto3, vec![field("a", 1, Type::Int32)]);
    let mut buf: Vec<u8> = Vec::new();
    put_tag(&mut buf, FieldNumber::new(1), WireType::Fixed32);
    buf.extend_from_slice(&[1, 0, 0, 0]);
    assert!(matches!(from_vec(&buf, &info), Err(Error::TypeMismatch(_))));
}

#[test]
fn invalid_utf8_rejected() {
    let info = message("M", Syntax::Proto3, vec![field("s", 1, Type::String)]);
    let mut buf: Vec<u8> = Vec::new();
    put_tag(&mut buf, FieldNumber::new(1), WireType::Bytes);
    put_bytes(&mut buf, &[0xff, 0xfe]);
    match from_vec(&buf, &info) {
        Err(Error::InvalidUTF8(name)) => assert_eq!(name, "s"),
        other => panic!("expected a UTF-8 fault, got {:?}", other),
    }
}

#[test]
fn unknown_fields_skipped() {
    let info = message("M", Syntax::Proto3, vec![field("a", 1, Type::Int32)]);
    let mut buf: Vec<u8> = Vec::new();
    put_tag(&mut buf, FieldNumber::new(9), WireType::Varint);
    put_varint(&mut buf, 77);
    put_tag(&mut buf, FieldNumber::new(1), WireType::Varint);
    put_varint(&mut buf, 3);
    let decoded = from_vec(&buf, &info).unwrap();
    assert_eq!(decoded, Value::Message(vec![Value::I32(3)]));
}

#[test]
fn recursion_limit_enforced() {
    // a descriptor chain deeper than the engine's nesting bound
    let mut info = message("M0", Syntax::Proto3, vec![field("x", 1, Type::Int32)]);
    let mut value = Value::Message(vec![Value::I32(1)]);
    for depth in 0..101 {
        let mut f = field("inner", 1, Type::Message);
        f.message_info = Some(Box::new(info));
        info = message(&format!("M{}", depth + 1), Syntax::Proto3, vec![f]);
        value = Value::Message(vec![value]);
    }
    assert!(matches!(to_vec(&value, &info), Err(Error::RecursionLimit)));
}

#[test]
fn repeated_unpacked_encode_decode() {
    let mut a = field("a", 1, Type::Uint32);
    a.cardinality = Cardinality::Repeated;
    let info = message("M", Syntax::Proto3, vec![a]);
    let value = Value::Message(vec![Value::List(vec![
        Value::U32(1),
        Value::U32(2),
        Value::U32(300),
    ])]);
    let encoded = to_vec(&value, &info).unwrap();
    assert_eq!(encoded, vec![0x08, 0x01, 0x08, 0x02, 0x08, 0xac, 0x02]);
    assert_eq!(from_vec(&encoded, &info).unwrap(), value);
}

#[test]
fn repeated_packed_encode_decode() {
    let mut a = field("a", 1, Type::Uint32);
    a.cardinality = Cardinality::Repeated;
    a.packed = true;
    let info = message("M", Syntax::Proto3, vec![a]);
    let value = Value::Message(vec![Value::List(vec![
        Value::U32(1),
        Value::U32(2),
        Value::U32(300),
    ])]);
    let encoded = to_vec(&value, &info).unwrap();
    // one tag, the payload length in bytes, then the bare elements
    assert_eq!(encoded, vec![0x0a, 0x04, 0x01, 0x02, 0xac, 0x02]);
    assert_eq!(from_vec(&encoded, &info).unwrap(), value);
}

#[test]
fn packed_accepted_for_unpacked_schema() {
    let mut a = field("a", 1, Type::Uint32);
    a.cardinality = Cardinality::Repeated;
    let info = message("M", Syntax::Proto3, vec![a]);
    let packed = vec![0x0a, 0x04, 0x01, 0x02, 0xac, 0x02];
    assert_eq!(
        from_vec(&packed, &info).unwrap(),
        Value::Message(vec![Value::List(vec![Value::U32(1), Value::U32(2), Value::U32(300)])])
    );
}

#[test]
fn map_field_encode_decode() {
    let mut key = field("key", 1, Type::Uint32);
    let mut val = field("value", 2, Type::String);
    key.cardinality = Cardinality::Optional;
    val.cardinality = Cardinality::Optional;
    let mut entry = message("MEntry", Syntax::Proto3, vec![key, val]);
    entry.is_map = true;
    let mut m = field("m", 1, Type::Message);
    m.cardinality = Cardinality::Repeated;
    m.message_info = Some(Box::new(entry));
    let info = message("M", Syntax::Proto3, vec![m]);

    let value = Value::Message(vec![Value::Dict(vec![(
        Value::U32(7),
        Value::String("x".to_string()),
    )])]);
    let encoded = to_vec(&value, &info).unwrap();
    // entry tag, entry length, key tag+value, value tag+length+text
    assert_eq!(encoded, vec![0x0a, 0x05, 0x08, 0x07, 0x12, 0x01, 0x78]);
    assert_eq!(from_vec(&encoded, &info).unwrap(), value);
}

#[test]
fn enum_sign_extended() {
    let info = message("M", Syntax::Proto3, vec![field("e", 1, Type::Enum)]);
    let value = Value::Message(vec![Value::Enum(-1)]);
    let encoded = to_vec(&value, &info).unwrap();
    assert_eq!(
        encoded,
        vec![0x08, 0xff, 0xff, 0xff, 0xff, 0xff, 0xff, 0xff, 0xff, 0xff, 0x01]
    );
    assert_eq!(from_vec(&encoded, &info).unwrap(), value);
}

#[test]
fn sint_fields_zig_zag() {
    let info = message("M", Syntax::Proto3, vec![field("s", 1, Type::SInt32)]);
    let value = Value::Message(vec![Value::I32(-1)]);
    let encoded = to_vec(&value, &info).unwrap();
    assert_eq!(encoded, vec![0x08, 0x01]);
    assert_eq!(from_vec(&encoded, &info).unwrap(), value);
}

#[test]
fn unpacked_accepted_for_packed_schema() {
    let mut a = field("a", 1, Type::Uint32);
    a.cardinality = Cardinality::Repeated;
    a.packed = true;
    let info = message("M", Syntax::Proto3, vec![a]);
    // one-at-a-time occurrences, although the schema declares packed
    let unpacked = vec![0x08, 0x01, 0x08, 0x02];
    assert_eq!(
        from_vec(&unpacked, &info).unwrap(),
        Value::Message(vec![Value::List(vec![Value::U32(1), Value::U32(2)])])
    );
}

#[test]
fn repeated_messages_round_trip() {
    let inner = message("Inner", Syntax::Proto3, vec![field("x", 1, Type::Uint32)]);
    let mut f = field("items", 1, Type::Message);
    f.cardinality = Cardinality::Repeated;
    f.message_info = Some(Box::new(inner));
    let info = message("M", Syntax::Proto3, vec![f]);
    let value = Value::Message(vec![Value::List(vec![
        Value::Message(vec![Value::U32(1)]),
        Value::Message(vec![Value::U32(2)]),
    ])]);
    let encoded = to_vec(&value, &info).unwrap();
    assert_eq!(from_vec(&encoded, &info).unwrap(), value);
}

#[test]
fn to_bytes_matches_to_vec() {
    let info = basic_scalar_info();
    let value = basic_scalar_value();
    let expected = to_vec(&value, &info).unwrap();
    let b = to_bytes(&value, &info).unwrap();
    assert_eq!(b, bytes::Bytes::from(expected.clone()));
    let bm = to_bytes_mut(&value, &info).unwrap();
    assert_eq!(&bm[..], &expected[..]);
}
