use vstd::prelude::*;
use crate::field::FieldNumber;
use crate::wire::WireType;

verus! {

/// The two schema dialects.
#[derive(Debug, Clone, Copy, PartialEq, Eq, Structural)]
pub enum Syntax {
    Proto2,
    Proto3,
}

impl Default for Syntax {
    fn default() -> (r: Self)
        ensures
            r == Syntax::Proto2,
    {
        Syntax::Proto2
    }
}

/// How often a field may occur.
#[derive(Debug, Clone, Copy, PartialEq, Eq, Structural)]
pub enum Cardinality {
    Optional,
    Required,
    Repeated,
}

impl Default for Cardinality {
    fn default() -> (r: Self)
        ensures
            r == Cardinality::Optional,
    {
        Cardinality::Optional
    }
}

/// The eighteen logical protobuf field types.
#[derive(Debug, Clone, Copy, PartialEq, Eq, Structural)]
pub enum Type {
    Double,
    Float,
    Int64,
    Uint64,
    Int32,
    Fixed64,
    Fixed32,
    Bool,
    String,
    Group,
    Message,
    Bytes,
    Uint32,
    Enum,
    SFixed32,
    SFixed64,
    SInt32,
    SInt64,
}

impl Type {
    /// The wire type each logical type travels as; fixed for the lifetime
    /// of a descriptor.
    pub open spec fn spec_wire_type(self) -> WireType {
        match self {
            Type::Double => WireType::Fixed64,
            Type::Float => WireType::Fixed32,
            Type::Int64 => WireType::Varint,
            Type::Uint64 => WireType::Varint,
            Type::Int32 => WireType::Varint,
            Type::Fixed64 => WireType::Fixed64,
            Type::Fixed32 => WireType::Fixed32,
            Type::Bool => WireType::Varint,
            Type::String => WireType::Bytes,
            Type::Group => WireType::StartGroup,
            Type::Message => WireType::Bytes,
            Type::Bytes => WireType::Bytes,
            Type::Uint32 => WireType::Varint,
            Type::Enum => WireType::Varint,
            Type::SFixed32 => WireType::Fixed32,
            Type::SFixed64 => WireType::Fixed64,
            Type::SInt32 => WireType::Varint,
            Type::SInt64 => WireType::Varint,
        }
    }

    pub fn wire_type(&self) -> (r: WireType)
        ensures
            r == self.spec_wire_type(),
    {
        match self {
            Type::Double => WireType::Fixed64,
            Type::Float => WireType::Fixed32,
            Type::Int64 => WireType::Varint,
            Type::Uint64 => WireType::Varint,
            Type::Int32 => WireType::Varint,
            Type::Fixed64 => WireType::Fixed64,
            Type::Fixed32 => WireType::Fixed32,
            Type::Bool => WireType::Varint,
            Type::String => WireType::Bytes,
            Type::Group => WireType::StartGroup,
            Type::Message => WireType::Bytes,
            Type::Bytes => WireType::Bytes,
            Type::Uint32 => WireType::Varint,
            Type::Enum => WireType::Varint,
            Type::SFixed32 => WireType::Fixed32,
            Type::SFixed64 => WireType::Fixed64,
            Type::SInt32 => WireType::Varint,
            Type::SInt64 => WireType::Varint,
        }
    }
}

impl Default for Type {
    fn default() -> (r: Self)
        ensures
            r == Type::Double,
    {
        Type::Double
    }
}

/// One declared value of an enum type.
#[derive(Debug, Clone)]
pub struct EnumValue {
    pub name: String,
    pub number: i32,
}

/// The static description of an enum type.
#[derive(Debug, Clone)]
pub struct EnumInfo {
    pub name: String,
    pub value: Vec<EnumValue>,
}

/// The static description of one message field: number, shape, logical
/// type, and — for message, group and enum fields — the child description.
#[derive(Debug)]
pub struct FieldInfo {
    pub name: String,
    pub number: FieldNumber,
    pub cardinality: Cardinality,
    pub ty: Type,
    pub ty_name: String,
    pub json_name: String,
    pub packed: bool,
    pub oneof_index: Option<i32>,
    pub message_info: Option<Box<MessageInfo>>,
    pub enum_info: Option<EnumInfo>,
}

/// The static description of a message: its fields in canonical walk
/// order, the dialect, and whether it is a synthetic map entry.
#[derive(Debug)]
pub struct MessageInfo {
    pub name: String,
    pub fields: Vec<FieldInfo>,
    pub syntax: Syntax,
    pub is_map: bool,
}

/// Well-formedness of a field description: a legal number, and the child
/// descriptors its logical type calls for.
pub open spec fn wf_field_info(f: FieldInfo) -> bool
    decreases f,
{
    &&& f.number.wf()
    &&& (f.ty == Type::Message || f.ty == Type::Group) ==> (f.message_info is Some
        && wf_message_info(*f.message_info->0))
    &&& f.ty == Type::Enum ==> f.enum_info is Some
}

/// Well-formedness of a message description: every field well formed, no
/// two fields sharing a number, and a map entry shaped as key 1, value 2.
pub open spec fn wf_message_info(m: MessageInfo) -> bool
    decreases m,
{
    &&& forall|i: int|
        0 <= i < m.fields@.len() ==> wf_field_info(#[trigger] m.fields@[i])
    &&& forall|i: int, j: int|
        #![trigger m.fields@[i].number, m.fields@[j].number]
        0 <= i < j < m.fields@.len() ==> m.fields@[i].number.spec_get()
            != m.fields@[j].number.spec_get()
    &&& m.is_map ==> (m.fields@.len() == 2 && m.fields@[0].number.spec_get() == 1
        && m.fields@[1].number.spec_get() == 2)
}

} // verus!
