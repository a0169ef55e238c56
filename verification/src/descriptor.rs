use vstd::prelude::*;

verus! {

/// The static description of one source file, as generated tables
/// declare it.
#[derive(Debug)]
pub struct FileDescriptor {
    pub name: String,
    pub package: String,
    pub message_type: Vec<MessageDescriptor>,
    pub enum_type: Vec<EnumDescriptor>,
    pub syntax: String,
}

/// The static description of one message type.
#[derive(Debug)]
pub struct MessageDescriptor {
    pub name: String,
    pub fields: Vec<FieldDescriptor>,
    pub nested_type: Vec<Box<MessageDescriptor>>,
    pub enum_type: Vec<EnumDescriptor>,
    pub oneof_decl: Vec<OneofDescriptor>,
    pub options: MessageOptions,
}

/// The static description of one field.
#[derive(Debug)]
pub struct FieldDescriptor {
    pub name: String,
    pub number: i32,
    pub label: FieldDescriptorLabel,
    pub ty: FieldDescriptorType,
    pub ty_name: String,
    pub json_name: String,
    pub default_value: String,
    pub oneof_index: Option<i32>,
}

#[derive(Debug, Clone, Copy, PartialEq, Eq, Structural)]
pub enum FieldDescriptorLabel {
    Optional,
    Required,
    Repeated,
}

#[derive(Debug, Clone, Copy, PartialEq, Eq, Structural)]
pub enum FieldDescriptorType {
    Double,
    Float,
    Int64,
    Uint64,
    Int32,
    Fixed64,
    Fixed32,
    Bool,
    String,
    Group,
    Message,
    Bytes,
    Uint32,
    Enum,
    SFixed32,
    SFixed64,
    SInt32,
    SInt64,
}

/// The static description of one enum type.
#[derive(Debug)]
pub struct EnumDescriptor {
    pub name: String,
    pub value: Vec<EnumValueDescriptor>,
}

/// One declared enum value.
#[derive(Debug)]
pub struct EnumValueDescriptor {
    pub name: String,
    pub number: i32,
}

/// The static description of one oneof group.
#[derive(Debug)]
pub struct OneofDescriptor {
    pub name: String,
}

/// Options carried by a message description.
#[derive(Debug, Clone, Copy, PartialEq, Eq, Structural)]
pub struct MessageOptions {
    pub map_entry: bool,
}

} // verus!
