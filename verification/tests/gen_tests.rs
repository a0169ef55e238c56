use tobu::field::FieldNumber;
use tobu::error::Error;
use tobu::parse::{FieldDescriptorProtoLabel, FieldDescriptorProtoType, parse_request};
use tobu::process::{Cardinality, FieldType, process_field, process_files, process_message,
    process_path, process_dependencies};
use tobu::parse::{DescriptorProto, EnumDescriptorProto, EnumValueDescriptorProto,
    FieldDescriptorProto};
use tobu::wire::{WireType, put_bytes, put_tag, put_varint};

fn bytes_field(buf: &mut Vec<u8>, num: i32, payload: &[u8]) {
    put_tag(buf, FieldNumber::new(num), WireType::Bytes);
    put_bytes(buf, payload);
}

fn varint_field(buf: &mut Vec<u8>, num: i32, v: u64) {
    put_tag(buf, FieldNumber::new(num), WireType::Varint);
    put_varint(buf, v);
}

#[test]
fn parse_request_basic() {
    // one file to generate, a compiler version, one empty proto file
    let mut version: Vec<u8> = Vec::new();
    varint_field(&mut version, 1, 3);
    varint_field(&mut version, 2, 21);

    let mut file: Vec<u8> = Vec::new();
    bytes_field(&mut file, 1, b"demo.proto");
    bytes_field(&mut file, 2, b"demo.pkg");

    let mut req: Vec<u8> = Vec::new();
    bytes_field(&mut req, 1, b"demo.proto");
    bytes_field(&mut req, 3, &version);
    bytes_field(&mut req, 15, &file);

    let parsed = parse_request(&req).unwrap();
    assert_eq!(parsed.file_to_generate, vec!["demo.proto".to_string()]);
    let ver = parsed.compiler_version.unwrap();
    assert_eq!(ver.major, Some(3));
    assert_eq!(ver.minor, Some(21));
    assert_eq!(ver.patch, None);
    assert_eq!(parsed.proto_file.len(), 1);
    assert_eq!(parsed.proto_file[0].name, Some("demo.proto".to_string()));
    assert_eq!(parsed.proto_file[0].package, Some("demo.pkg".to_string()));
}

#[test]
fn parse_request_unknown_field_faults() {
    let mut req: Vec<u8> = Vec::new();
    varint_field(&mut req, 12, 9);
    assert!(matches!(parse_request(&req), Err(Error::FieldNotFound(_))));
}

#[test]
fn parse_request_nested_message() {
    // a file holding one message with one int32 field and one enum
    let mut fd: Vec<u8> = Vec::new();
    bytes_field(&mut fd, 1, b"count");
    varint_field(&mut fd, 3, 4);
    varint_field(&mut fd, 4, 1);
    varint_field(&mut fd, 5, 5);

    let mut ev: Vec<u8> = Vec::new();
    bytes_field(&mut ev, 1, b"COLOR_RED");
    varint_field(&mut ev, 2, 1);

    let mut en: Vec<u8> = Vec::new();
    bytes_field(&mut en, 1, b"Color");
    bytes_field(&mut en, 2, &ev);

    let mut msg: Vec<u8> = Vec::new();
    bytes_field(&mut msg, 1, b"Thing");
    bytes_field(&mut msg, 2, &fd);
    bytes_field(&mut msg, 4, &en);

    let mut file: Vec<u8> = Vec::new();
    bytes_field(&mut file, 1, b"t.proto");
    bytes_field(&mut file, 2, b"pkg");
    bytes_field(&mut file, 4, &msg);

    let mut req: Vec<u8> = Vec::new();
    bytes_field(&mut req, 15, &file);

    let parsed = parse_request(&req).unwrap();
    let m = &parsed.proto_file[0].message_type[0];
    assert_eq!(m.name, Some("Thing".to_string()));
    assert_eq!(m.field[0].name, Some("count".to_string()));
    assert_eq!(m.field[0].number, Some(4));
    assert_eq!(m.field[0].label, Some(FieldDescriptorProtoLabel::Optional));
    assert_eq!(m.field[0].ty, Some(FieldDescriptorProtoType::Int32));
    assert_eq!(m.enum_type[0].name, Some("Color".to_string()));
    assert_eq!(m.enum_type[0].value[0].name, Some("COLOR_RED".to_string()));
    assert_eq!(m.enum_type[0].value[0].number, Some(1));
}

#[test]
fn path_layout() {
    assert_eq!(process_path("a/b/c.proto", "x.y"), "src/x/y/c.rs");
    assert_eq!(process_path("demo.proto", "pkg"), "src/pkg/demo.rs");
}

#[test]
fn dependency_modules() {
    let deps = vec!["google/protobuf/descriptor.proto".to_string()];
    let out = process_dependencies(&deps);
    assert_eq!(
        out,
        vec![vec![
            "google".to_string(),
            "protobuf".to_string(),
            "descriptor".to_string(),
        ]]
    );
}

#[test]
fn enum_value_renaming() {
    // the value names lose their camel-cased enum prefix
    let dp = DescriptorProto {
        name: Some("Holder".to_string()),
        field: Vec::new(),
        nested_type: Vec::new(),
        enum_type: vec![EnumDescriptorProto {
            name: Some("Color".to_string()),
            value: vec![
                EnumValueDescriptorProto { name: Some("COLOR_RED".to_string()), number: Some(1) },
                EnumValueDescriptorProto { name: Some("COLOR_DEEP_BLUE".to_string()), number: Some(2) },
            ],
        }],
        extension_range: Vec::new(),
        reserved_range: Vec::new(),
    };
    let m = process_message(&dp, "").unwrap();
    assert_eq!(m.name, "Holder");
    assert_eq!(m.enums[0].name, "HolderColor");
    assert_eq!(m.enums[0].values[0].name, "Red");
    assert_eq!(m.enums[0].values[0].number, 1);
    assert_eq!(m.enums[0].values[1].name, "DeepBlue");
    assert_eq!(m.enums[0].values[1].number, 2);
}

#[test]
fn field_keyword_and_types() {
    let f = FieldDescriptorProto {
        name: Some("type".to_string()),
        number: Some(1),
        label: Some(FieldDescriptorProtoLabel::Repeated),
        ty: Some(FieldDescriptorProtoType::SInt64),
        ty_name: None,
        default_value: None,
        options: None,
        json_name: None,
    };
    let out = process_field(&f, "Base", &Vec::new(), &Vec::new()).unwrap();
    assert_eq!(out.name, "r#type");
    assert_eq!(out.cardinality, Cardinality::Repeated);
    assert!(matches!(out.ty, FieldType::SInt64));
    assert_eq!(out.default_value, None);
}

#[test]
fn field_sibling_type_prefixed() {
    // a message-typed field naming a sibling keeps the flattened prefix
    let nested = DescriptorProto {
        name: Some("Inner".to_string()),
        field: Vec::new(),
        nested_type: Vec::new(),
        enum_type: Vec::new(),
        extension_range: Vec::new(),
        reserved_range: Vec::new(),
    };
    let dp = DescriptorProto {
        name: Some("Outer".to_string()),
        field: vec![FieldDescriptorProto {
            name: Some("child".to_string()),
            number: Some(1),
            label: Some(FieldDescriptorProtoLabel::Optional),
            ty: Some(FieldDescriptorProtoType::Message),
            ty_name: Some(".pkg.Outer.Inner".to_string()),
            default_value: None,
            options: None,
            json_name: None,
        }],
        nested_type: vec![nested],
        enum_type: Vec::new(),
        extension_range: Vec::new(),
        reserved_range: Vec::new(),
    };
    let m = process_message(&dp, "").unwrap();
    assert_eq!(m.nested[0].name, "OuterInner");
    assert!(matches!(&m.fields[0].ty, FieldType::Message(n) if n == "OuterInner"));
}

#[test]
fn files_processed_with_paths() {
    let mut file: Vec<u8> = Vec::new();
    bytes_field(&mut file, 1, b"d/e.proto");
    bytes_field(&mut file, 2, b"p.q");
    let mut req: Vec<u8> = Vec::new();
    bytes_field(&mut req, 15, &file);

    let parsed = parse_request(&req).unwrap();
    let files = process_files(&parsed.proto_file).unwrap();
    assert_eq!(files.len(), 1);
    assert_eq!(files[0].path, "src/p/q/e.rs");
}
