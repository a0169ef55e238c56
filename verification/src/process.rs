use vstd::prelude::*;
use heck::CamelCase;
use crate::error::{Error, ErrorModel};
use crate::parse::{FieldDescriptorProtoModel, FieldDescriptorProtoLabel,
    FieldDescriptorProtoType, DescriptorProto, EnumDescriptorProto, FieldDescriptorProto,
    FileDescriptorProto, field_descriptor_proto_view, strings_view};

verus! {

// ------------------------------------------------------------------
// Shaping parsed declarations into the flat records the generator walks.

/// One source file ready for generation: its target path, the modules of
/// its dependencies, and its flattened messages.
#[derive(Debug)]
pub struct File {
    pub path: String,
    pub dependencies: Vec<Vec<String>>,
    pub messages: Vec<Message>,
}

/// One message with nesting flattened into prefixed names.
#[derive(Debug)]
pub struct Message {
    pub name: String,
    pub nested: Vec<Message>,
    pub enums: Vec<Enum>,
    pub fields: Vec<Field>,
}

/// One enum with its values renamed to the target style.
#[derive(Debug)]
pub struct Enum {
    pub name: String,
    pub values: Vec<EnumValue>,
}

/// One renamed enum value.
#[derive(Debug)]
pub struct EnumValue {
    pub name: String,
    pub number: i32,
}

/// One field with its shape and target type resolved.
#[derive(Debug)]
pub struct Field {
    pub name: String,
    pub cardinality: Cardinality,
    pub ty: FieldType,
    pub default_value: Option<String>,
}

/// The target type a field maps to.
#[derive(Debug, PartialEq)]
pub enum FieldType {
    Double,
    Float,
    Int64,
    UInt64,
    Int32,
    Fixed64,
    Fixed32,
    Bool,
    String,
    Group(String),
    Message(String),
    Bytes,
    UInt32,
    Enum(String),
    SFixed32,
    SFixed64,
    SInt32,
    SInt64,
}

/// The ghost image of a `FieldType`.
pub enum FieldTypeModel {
    Double,
    Float,
    Int64,
    UInt64,
    Int32,
    Fixed64,
    Fixed32,
    Bool,
    String,
    Group(Seq<char>),
    Message(Seq<char>),
    Bytes,
    UInt32,
    Enum(Seq<char>),
    SFixed32,
    SFixed64,
    SInt32,
    SInt64,
}

pub open spec fn field_type_view(t: FieldType) -> FieldTypeModel {
    match t {
        FieldType::Double => FieldTypeModel::Double,
        FieldType::Float => FieldTypeModel::Float,
        FieldType::Int64 => FieldTypeModel::Int64,
        FieldType::UInt64 => FieldTypeModel::UInt64,
        FieldType::Int32 => FieldTypeModel::Int32,
        FieldType::Fixed64 => FieldTypeModel::Fixed64,
        FieldType::Fixed32 => FieldTypeModel::Fixed32,
        FieldType::Bool => FieldTypeModel::Bool,
        FieldType::String => FieldTypeModel::String,
        FieldType::Group(s) => FieldTypeModel::Group(s@),
        FieldType::Message(s) => FieldTypeModel::Message(s@),
        FieldType::Bytes => FieldTypeModel::Bytes,
        FieldType::UInt32 => FieldTypeModel::UInt32,
        FieldType::Enum(s) => FieldTypeModel::Enum(s@),
        FieldType::SFixed32 => FieldTypeModel::SFixed32,
        FieldType::SFixed64 => FieldTypeModel::SFixed64,
        FieldType::SInt32 => FieldTypeModel::SInt32,
        FieldType::SInt64 => FieldTypeModel::SInt64,
    }
}

/// How often a processed field may occur.
#[derive(Debug, PartialEq, Eq, Structural, Clone, Copy)]
pub enum Cardinality {
    Optional,
    Required,
    Repeated,
}

// ------------------------------------------------------------------
// Small string transformations, stated over character sequences.

/// The position of the first occurrence of `c`, or the length when
/// there is none.
pub open spec fn spec_first_index(s: Seq<char>, c: char) -> nat
    decreases s.len(),
{
    if s.len() == 0 {
        0
    } else if s[0] == c {
        0
    } else {
        1 + spec_first_index(s.drop_first(), c)
    }
}

/// Splitting a character sequence at every occurrence of a separator;
/// always at least one piece, possibly empty ones.
pub open spec fn spec_split(s: Seq<char>, c: char) -> Seq<Seq<char>>
    decreases s.len(),
{
    let i = spec_first_index(s, c);
    if i >= s.len() {
        seq![s]
    } else {
        seq![s.subrange(0, i as int)] + spec_split(s.skip(i as int + 1), c)
    }
}

/// Relies on str::split with a char pattern: the pieces between
/// occurrences of the separator, in order, kept even when empty.
#[verifier::external_body]
fn split_on(s: &str, c: char) -> (r: Vec<String>)
    ensures
        strings_view(r@) == spec_split(s@, c),
{
    s.split(c).map(|p| p.to_string()).collect()
}

/// A prefix repeatedly removed.
pub open spec fn spec_trim_start(s: Seq<char>, p: Seq<char>) -> Seq<char>
    decreases s.len(),
{
    if p.len() == 0 || p.len() > s.len() || s.subrange(0, p.len() as int) != p {
        s
    } else {
        spec_trim_start(s.skip(p.len() as int), p)
    }
}

/// A suffix repeatedly removed.
pub open spec fn spec_trim_end(s: Seq<char>, p: Seq<char>) -> Seq<char>
    decreases s.len(),
{
    if p.len() == 0 || p.len() > s.len() || s.subrange(s.len() - p.len(), s.len() as int) != p {
        s
    } else {
        spec_trim_end(s.subrange(0, s.len() - p.len()), p)
    }
}

/// Relies on str::trim_start_matches: the leading prefix repeatedly
/// removed.
#[verifier::external_body]
fn trim_start_matches_str(s: &str, p: &str) -> (r: String)
    requires
        p@.len() > 0,
    ensures
        r@ == spec_trim_start(s@, p@),
{
    s.trim_start_matches(p).to_string()
}

/// Relies on str::trim_end_matches: the trailing suffix repeatedly
/// removed.
#[verifier::external_body]
fn trim_end_matches_str(s: &str, p: &str) -> (r: String)
    requires
        p@.len() > 0,
    ensures
        r@ == spec_trim_end(s@, p@),
{
    s.trim_end_matches(p).to_string()
}

/// Relies on String concatenation: the characters of `a` then of `b`.
#[verifier::external_body]
fn concat_str(a: &str, b: &str) -> (r: String)
    ensures
        r@ == a@ + b@,
{
    a.to_string() + b
}

/// The camel-cased form of a name, as the `heck` crate renders it; a
/// function of the characters alone.
pub uninterp spec fn camel_of(s: Seq<char>) -> Seq<char>;

/// Relies on heck::CamelCase::to_camel_case: the camel-cased rendering,
/// a pure function of the input characters.
#[verifier::external_body]
fn to_camel_case(s: &str) -> (r: String)
    ensures
        r@ == camel_of(s@),
{
    s.to_camel_case()
}

// ------------------------------------------------------------------
// The processors.

/// The generated path of one file: `src`, the package split on dots, the
/// file's stem, and the target extension.
pub open spec fn spec_process_path(name: Seq<char>, package: Seq<char>) -> Seq<char> {
    let dirs = spec_split(package, '.');
    let file = spec_split(spec_split(name, '/').last(), '.')[0];
    "src/"@ + spec_join_slash(dirs) + "/"@ + file + ".rs"@
}

/// Pieces joined with one slash between each pair.
pub open spec fn spec_join_slash(parts: Seq<Seq<char>>) -> Seq<char>
    decreases parts.len(),
{
    if parts.len() == 0 {
        Seq::empty()
    } else if parts.len() == 1 {
        parts[0]
    } else {
        parts[0] + "/"@ + spec_join_slash(parts.drop_first())
    }
}

/// Builds the path the generated file will be written to.
pub fn process_path(name: &str, package: &str) -> (r: String)
    ensures
        r@ == spec_process_path(name@, package@),
{
    let dirs = split_on(package, '.');
    let mut p = concat_str("src", "");
    proof {
        reveal_strlit("src");
        reveal_strlit("src/");
        reveal_strlit("/");
        reveal_strlit("");
        reveal_strlit(".rs");
        assert(p@ =~= "src"@);
    }
    let mut i: usize = 0;
    #[verifier::loop_isolation(false)]
    while i < dirs.len()
        invariant
            0 <= i <= dirs@.len(),
            i == 0 ==> p@ == "src"@,
            i > 0 ==> p@ == "src/"@ + spec_join_slash(strings_view(dirs@).subrange(0, i as int)),
        decreases dirs@.len() - i,
    {
        let ghost pre = p@;
        p = concat_str(p.as_str(), "/");
        p = concat_str(p.as_str(), dirs[i].as_str());
        proof {
            lemma_join_slash_snoc(strings_view(dirs@), i as int);
            assert(strings_view(dirs@)[i as int] == dirs@[i as int]@);
            if i == 0 {
                assert(p@ =~= "src/"@ + spec_join_slash(
                    strings_view(dirs@).subrange(0, 1),
                )) by {
                    assert(strings_view(dirs@).subrange(0, 1) =~= seq![dirs@[0]@]);
                    assert(spec_join_slash(seq![dirs@[0]@]) == dirs@[0]@);
                    assert("src"@ + "/"@ =~= "src/"@);
                };
            } else {
                assert(p@ =~= "src/"@ + spec_join_slash(
                    strings_view(dirs@).subrange(0, i + 1),
                ));
            }
        }
        i += 1;
    }
    let ghost p_dirs = p@;
    proof {
        lemma_split_nonempty(package@, '.');
        assert(dirs@.len() >= 1) by {
            assert(strings_view(dirs@).len() == dirs@.len());
        };
        assert(strings_view(dirs@).subrange(0, dirs@.len() as int) =~= strings_view(dirs@));
        assert(p_dirs == "src/"@ + spec_join_slash(strings_view(dirs@)));
    }
    // the last path segment: the file's stem under its directory
    let slashed = split_on(name, '/');
    let last = if slashed.len() > 0 {
        slashed[slashed.len() - 1].as_str()
    } else {
        ""
    };
    let dotted = split_on(last, '.');
    let stem = if dotted.len() > 0 {
        dotted[0].as_str()
    } else {
        ""
    };
    p = concat_str(p.as_str(), "/");
    p = concat_str(p.as_str(), stem);
    p = concat_str(p.as_str(), ".rs");
    proof {
        lemma_split_nonempty(name@, '/');
        lemma_split_nonempty(spec_split(name@, '/').last(), '.');
        assert(strings_view(slashed@)[slashed@.len() - 1] == slashed@[slashed@.len() - 1]@);
        assert(strings_view(slashed@).last() == spec_split(name@, '/').last());
        assert(strings_view(dotted@)[0] == dotted@[0]@);
        assert(strings_view(dotted@)[0] == spec_split(spec_split(name@, '/').last(), '.')[0]);
        assert(p@ =~= spec_process_path(name@, package@));
    }
    p
}

/// Splitting always yields at least one piece.
pub proof fn lemma_split_nonempty(s: Seq<char>, c: char)
    ensures
        spec_split(s, c).len() >= 1,
{
}

proof fn lemma_join_slash_snoc(parts: Seq<Seq<char>>, i: int)
    requires
        0 <= i < parts.len(),
    ensures
        i == 0 ==> spec_join_slash(parts.subrange(0, 1)) == parts[0],
        i > 0 ==> spec_join_slash(parts.subrange(0, i + 1)) == spec_join_slash(
            parts.subrange(0, i),
        ) + "/"@ + parts[i],
    decreases i,
{
    if i == 0 {
        assert(parts.subrange(0, 1) =~= seq![parts[0]]);
    } else {
        lemma_join_slash_snoc(parts.drop_first(), i - 1);
        let a = parts.subrange(0, i + 1);
        let b = parts.subrange(0, i);
        assert(a.drop_first() =~= parts.drop_first().subrange(0, i));
        assert(b.drop_first() =~= parts.drop_first().subrange(0, i - 1));
        if i == 1 {
            assert(spec_join_slash(b) == parts[0]);
            assert(a =~= seq![parts[0], parts[1]]);
            assert(a.drop_first() =~= seq![parts[1]]);
            assert(spec_join_slash(a) == parts[0] + "/"@ + parts[1]);
        } else {
            assert(spec_join_slash(a) == a[0] + "/"@ + spec_join_slash(a.drop_first()));
            assert(spec_join_slash(b) == b[0] + "/"@ + spec_join_slash(b.drop_first()));
            assert(parts.drop_first()[i - 1] == parts[i]);
            assert((parts[0] + "/"@ + (spec_join_slash(parts.drop_first().subrange(0, i - 1))
                + "/"@ + parts[i])) =~= ((parts[0] + "/"@ + spec_join_slash(
                parts.drop_first().subrange(0, i - 1),
            )) + "/"@ + parts[i]));
        }
    }
}

/// One dependency name as module path pieces: the `.proto` suffix
/// dropped, the rest split on slashes.
pub open spec fn spec_process_dependency(dep: Seq<char>) -> Seq<Seq<char>> {
    spec_split(spec_trim_end(dep, ".proto"@), '/')
}

/// Splits each dependency into the module path it will be imported from.
pub fn process_dependencies(deps: &Vec<String>) -> (r: Vec<Vec<String>>)
    ensures
        r@.len() == deps@.len(),
        forall|i: int|
            0 <= i < deps@.len() ==> strings_view(#[trigger] r@[i]@) == spec_process_dependency(
                deps@[i]@,
            ),
{
    let mut out: Vec<Vec<String>> = Vec::new();
    let mut i: usize = 0;
    proof {
        reveal_strlit(".proto");
    }
    #[verifier::loop_isolation(false)]
    while i < deps.len()
        invariant
            0 <= i <= deps@.len(),
            out@.len() == i,
            forall|j: int|
                0 <= j < i ==> strings_view(#[trigger] out@[j]@) == spec_process_dependency(
                    deps@[j]@,
                ),
        decreases deps@.len() - i,
    {
        let trimmed = trim_end_matches_str(deps[i].as_str(), ".proto");
        out.push(split_on(trimmed.as_str(), '/'));
        i += 1;
    }
    out
}


/// The target-language reference to a named type: the base prefix and
/// the last dot-separated segment of the declared name.
pub open spec fn spec_type_ref(base: Seq<char>, tn: Seq<char>) -> Seq<char> {
    base + spec_split(tn, '.').last()
}

/// Builds the reference to a field's named type.
fn process_field_type_name(field: &FieldDescriptorProto, base_name: &str) -> (r: Result<
    String,
    Error,
>)
    ensures
        match r {
            Ok(st) => field.ty_name is Some && st@ == spec_type_ref(
                base_name@,
                field.ty_name->0@,
            ),
            Err(e) => field.ty_name is None && e@ == ErrorModel::Message(
                "field type name required"@,
            ),
        },
{
    let tn = match &field.ty_name {
        Some(tn) => tn,
        None => {
            return Err(Error::Message("field type name required".to_owned()));
        },
    };
    let segs = split_on(tn.as_str(), '.');
    let last = if segs.len() > 0 {
        segs[segs.len() - 1].as_str()
    } else {
        ""
    };
    let r = concat_str(base_name, last);
    proof {
        lemma_split_nonempty(tn@, '.');
        assert(strings_view(segs@)[segs@.len() - 1] == segs@[segs@.len() - 1]@);
        assert(strings_view(segs@).last() == spec_split(tn@, '.').last());
    }
    Ok(r)
}

/// The ghost image of one processed field.
pub struct FieldModel {
    pub name: Seq<char>,
    pub cardinality: Cardinality,
    pub ty: FieldTypeModel,
    pub default_value: Option<Seq<char>>,
}

pub open spec fn field_view(f: Field) -> FieldModel {
    FieldModel {
        name: f.name@,
        cardinality: f.cardinality,
        ty: field_type_view(f.ty),
        default_value: match f.default_value {
            Some(s) => Some(s@),
            None => None,
        },
    }
}

/// The target type a declared field maps to; named types carry the given
/// prefix and their last name segment.
pub open spec fn spec_process_field_type(f: FieldDescriptorProtoModel, base: Seq<char>) -> Result<
    FieldTypeModel,
    ErrorModel,
> {
    match f.ty {
        None => Err(ErrorModel::Message("field type required"@)),
        Some(t) => match t {
            FieldDescriptorProtoType::Group => match f.ty_name {
                Some(tn) => Ok(FieldTypeModel::Group(spec_type_ref(base, tn))),
                None => Err(ErrorModel::Message("field type name required"@)),
            },
            FieldDescriptorProtoType::Message => match f.ty_name {
                Some(tn) => Ok(FieldTypeModel::Message(spec_type_ref(base, tn))),
                None => Err(ErrorModel::Message("field type name required"@)),
            },
            FieldDescriptorProtoType::Enum => match f.ty_name {
                Some(tn) => Ok(FieldTypeModel::Enum(spec_type_ref(base, tn))),
                None => Err(ErrorModel::Message("field type name required"@)),
            },
            FieldDescriptorProtoType::Double => Ok(FieldTypeModel::Double),
            FieldDescriptorProtoType::Float => Ok(FieldTypeModel::Float),
            FieldDescriptorProtoType::Int64 => Ok(FieldTypeModel::Int64),
            FieldDescriptorProtoType::UInt64 => Ok(FieldTypeModel::UInt64),
            FieldDescriptorProtoType::Int32 => Ok(FieldTypeModel::Int32),
            FieldDescriptorProtoType::Fixed64 => Ok(FieldTypeModel::Fixed64),
            FieldDescriptorProtoType::Fixed32 => Ok(FieldTypeModel::Fixed32),
            FieldDescriptorProtoType::Bool => Ok(FieldTypeModel::Bool),
            FieldDescriptorProtoType::String => Ok(FieldTypeModel::String),
            FieldDescriptorProtoType::Bytes => Ok(FieldTypeModel::Bytes),
            FieldDescriptorProtoType::UInt32 => Ok(FieldTypeModel::UInt32),
            FieldDescriptorProtoType::SFixed32 => Ok(FieldTypeModel::SFixed32),
            FieldDescriptorProtoType::SFixed64 => Ok(FieldTypeModel::SFixed64),
            FieldDescriptorProtoType::SInt32 => Ok(FieldTypeModel::SInt32),
            FieldDescriptorProtoType::SInt64 => Ok(FieldTypeModel::SInt64),
        },
    }
}

/// Resolves a declared field type to its target form.
fn process_field_type(field: &FieldDescriptorProto, base_name: &str) -> (r: Result<
    FieldType,
    Error,
>)
    ensures
        match r {
            Ok(t) => spec_process_field_type(field_descriptor_proto_view(*field), base_name@)
                == Ok::<FieldTypeModel, ErrorModel>(field_type_view(t)),
            Err(e) => spec_process_field_type(field_descriptor_proto_view(*field), base_name@)
                == Err::<FieldTypeModel, ErrorModel>(e@),
        },
{
    let t = match &field.ty {
        Some(t) => t,
        None => {
            return Err(Error::Message("field type required".to_owned()));
        },
    };
    match t {
        FieldDescriptorProtoType::Group => match process_field_type_name(field, base_name) {
            Ok(n) => Ok(FieldType::Group(n)),
            Err(e) => Err(e),
        },
        FieldDescriptorProtoType::Message => match process_field_type_name(field, base_name) {
            Ok(n) => Ok(FieldType::Message(n)),
            Err(e) => Err(e),
        },
        FieldDescriptorProtoType::Enum => match process_field_type_name(field, base_name) {
            Ok(n) => Ok(FieldType::Enum(n)),
            Err(e) => Err(e),
        },
        FieldDescriptorProtoType::Double => Ok(FieldType::Double),
        FieldDescriptorProtoType::Float => Ok(FieldType::Float),
        FieldDescriptorProtoType::Int64 => Ok(FieldType::Int64),
        FieldDescriptorProtoType::UInt64 => Ok(FieldType::UInt64),
        FieldDescriptorProtoType::Int32 => Ok(FieldType::Int32),
        FieldDescriptorProtoType::Fixed64 => Ok(FieldType::Fixed64),
        FieldDescriptorProtoType::Fixed32 => Ok(FieldType::Fixed32),
        FieldDescriptorProtoType::Bool => Ok(FieldType::Bool),
        FieldDescriptorProtoType::String => Ok(FieldType::String),
        FieldDescriptorProtoType::Bytes => Ok(FieldType::Bytes),
        FieldDescriptorProtoType::UInt32 => Ok(FieldType::UInt32),
        FieldDescriptorProtoType::SFixed32 => Ok(FieldType::SFixed32),
        FieldDescriptorProtoType::SFixed64 => Ok(FieldType::SFixed64),
        FieldDescriptorProtoType::SInt32 => Ok(FieldType::SInt32),
        FieldDescriptorProtoType::SInt64 => Ok(FieldType::SInt64),
    }
}

/// Trims a leading prefix, repeatedly; an empty prefix trims nothing.
fn trim_start(s: &str, p: &str) -> (r: String)
    ensures
        r@ == spec_trim_start(s@, p@),
{
    if p.is_empty() {
        s.to_owned()
    } else {
        trim_start_matches_str(s, p)
    }
}

/// The target form of a declared default value: enums qualify the value
/// by its type, message and group defaults are not supported, scalars
/// pass through.
pub open spec fn spec_process_default(default: Seq<char>, ty: FieldTypeModel) -> Result<
    Seq<char>,
    ErrorModel,
> {
    match ty {
        FieldTypeModel::Enum(name) => Ok(
            default + "::"@ + spec_trim_start(camel_of(default), name),
        ),
        FieldTypeModel::Group(_) => Err(ErrorModel::Message("group default not supported"@)),
        FieldTypeModel::Message(_) => Err(ErrorModel::Message("message default not supported"@)),
        _ => Ok(default),
    }
}

/// Renders one declared default value for the target language.
fn process_default_value(default: &str, ty: &FieldType) -> (r: Result<String, Error>)
    ensures
        match r {
            Ok(st) => spec_process_default(default@, field_type_view(*ty)) == Ok::<
                Seq<char>,
                ErrorModel,
            >(st@),
            Err(e) => spec_process_default(default@, field_type_view(*ty)) == Err::<
                Seq<char>,
                ErrorModel,
            >(e@),
        },
{
    match ty {
        FieldType::Enum(name) => {
            let camel = to_camel_case(default);
            let trimmed = trim_start(camel.as_str(), name.as_str());
            let left = concat_str(default, "::");
            let r = concat_str(left.as_str(), trimmed.as_str());
            proof {
                reveal_strlit("::");
            }
            Ok(r)
        },
        FieldType::Group(_) => Err(Error::Message("group default not supported".to_owned())),
        FieldType::Message(_) => Err(Error::Message("message default not supported".to_owned())),
        _ => Ok(default.to_owned()),
    }
}

/// A processed enum standing for a declared one: the flattened name,
/// and every declared value carried over, camel-cased and stripped of
/// the enum's own name.
pub open spec fn spec_enum_shaped(num: EnumDescriptorProto, base: Seq<char>, en: Enum) -> bool {
    &&& num.name is Some
    &&& en.name@ == base + num.name->0@
    &&& en.values@.len() == num.value@.len()
    &&& forall|i: int|
        #![trigger num.value@[i]]
        0 <= i < num.value@.len() ==> (num.value@[i].name is Some && num.value@[i].number is Some
            && en.values@[i].name@ == spec_trim_start(
            camel_of(num.value@[i].name->0@),
            num.name->0@,
        ) && en.values@[i].number == num.value@[i].number->0)
}

/// Renames one declared enum: values are camel-cased and stripped of the
/// enum's own name, then the whole enum takes the flattened prefix.
fn process_enum(num: &EnumDescriptorProto, base_name: &str) -> (r: Result<Enum, Error>)
    ensures
        match r {
            Ok(en) => spec_enum_shaped(*num, base_name@, en),
            Err(e) => (num.name is None || (exists|i: int|
                0 <= i < num.value@.len() && ((#[trigger] num.value@[i]).name is None
                    || num.value@[i].number is None))) && (num.name is None ==> e@
                == ErrorModel::Message("enum name required"@)),
        },
{
    let name = match &num.name {
        Some(n) => n,
        None => {
            return Err(Error::Message("enum name required".to_owned()));
        },
    };
    let mut values: Vec<EnumValue> = Vec::new();
    let mut i: usize = 0;
    #[verifier::loop_isolation(false)]
    while i < num.value.len()
        invariant
            0 <= i <= num.value@.len(),
            values@.len() == i,
            forall|j: int|
                #![trigger num.value@[j]]
                0 <= j < i ==> (num.value@[j].name is Some && num.value@[j].number is Some
                    && values@[j].name@ == spec_trim_start(
                    camel_of(num.value@[j].name->0@),
                    name@,
                ) && values@[j].number == num.value@[j].number->0),
        decreases num.value@.len() - i,
    {
        let val = &num.value[i];
        let vn = match &val.name {
            Some(n) => n,
            None => {
                return Err(Error::Message("enum value name required".to_owned()));
            },
        };
        let vnum = match &val.number {
            Some(n) => *n,
            None => {
                return Err(Error::Message("enum value number required".to_owned()));
            },
        };
        let camel = to_camel_case(vn.as_str());
        let trimmed = trim_start(camel.as_str(), name.as_str());
        let ghost tv = trimmed@;
        values.push(EnumValue { name: trimmed, number: vnum });
        proof {
            assert(values@[i as int].name@ == tv);
            assert(tv == spec_trim_start(camel_of(num.value@[i as int].name->0@), name@));
        }
        i += 1;
    }
    let full = concat_str(base_name, name.as_str());
    Ok(Enum { name: full, values })
}


/// The processed form of one declared field: the keyword-safe name, the
/// mapped shape, the resolved target type — prefixed only when it names
/// a sibling declaration — and the rendered default.
pub open spec fn spec_process_field(
    f: FieldDescriptorProtoModel,
    base: Seq<char>,
    nested_names: Seq<Seq<char>>,
    enum_names: Seq<Seq<char>>,
) -> Result<FieldModel, ErrorModel> {
    match f.name {
        None => Err(ErrorModel::Message("field name required"@)),
        Some(n0) => {
            let n = if n0 == "type"@ {
                "r#type"@
            } else {
                n0
            };
            match f.label {
                None => Err(ErrorModel::Message("field label required"@)),
                Some(l) => {
                    let card = match l {
                        FieldDescriptorProtoLabel::Optional => Cardinality::Optional,
                        FieldDescriptorProtoLabel::Required => Cardinality::Required,
                        FieldDescriptorProtoLabel::Repeated => Cardinality::Repeated,
                    };
                    let tn_full: Option<Seq<char>> = match f.ty_name {
                        Some(tn) => Some(spec_type_ref(base, tn)),
                        None => None,
                    };
                    let use_base = (exists|j: int|
                        0 <= j < nested_names.len() && tn_full == Some(#[trigger] nested_names[j]))
                        || (exists|j: int|
                        0 <= j < enum_names.len() && tn_full == Some(#[trigger] enum_names[j]));
                    match spec_process_field_type(
                        f,
                        if use_base {
                            base
                        } else {
                            Seq::empty()
                        },
                    ) {
                        Ok(t) => match f.default_value {
                            None => Ok(
                                FieldModel { name: n, cardinality: card, ty: t, default_value: None },
                            ),
                            Some(d) => match spec_process_default(d, t) {
                                Ok(dv) => Ok(
                                    FieldModel {
                                        name: n,
                                        cardinality: card,
                                        ty: t,
                                        default_value: Some(dv),
                                    },
                                ),
                                Err(e) => Err(e),
                            },
                        },
                        Err(e) => Err(e),
                    }
                },
            }
        },
    }
}

/// Processes one declared field against its sibling declarations.
#[verifier::rlimit(100)]
#[verifier::spinoff_prover]
pub fn process_field(
    field: &FieldDescriptorProto,
    base_name: &str,
    nested: &Vec<Message>,
    enums: &Vec<Enum>,
) -> (r: Result<Field, Error>)
    ensures
        ({
            let nested_names = Seq::new(nested@.len(), |j: int| nested@[j].name@);
            let enum_names = Seq::new(enums@.len(), |j: int| enums@[j].name@);
            match r {
                Ok(fd) => spec_process_field(
                    field_descriptor_proto_view(*field),
                    base_name@,
                    nested_names,
                    enum_names,
                ) == Ok::<FieldModel, ErrorModel>(field_view(fd)),
                Err(e) => spec_process_field(
                    field_descriptor_proto_view(*field),
                    base_name@,
                    nested_names,
                    enum_names,
                ) == Err::<FieldModel, ErrorModel>(e@),
            }
        }),
{
    let ghost nested_names = Seq::new(nested@.len(), |j: int| nested@[j].name@);
    let ghost enum_names = Seq::new(enums@.len(), |j: int| enums@[j].name@);
    let n0 = match &field.name {
        Some(n) => n,
        None => {
            return Err(Error::Message("field name required".to_owned()));
        },
    };
    let tyword: String = "type".to_owned();
    let name: String = if *n0 == tyword {
        "r#type".to_owned()
    } else {
        n0.clone()
    };
    let label = match &field.label {
        Some(l) => l,
        None => {
            return Err(Error::Message("field label required".to_owned()));
        },
    };
    let cardinality = match label {
        FieldDescriptorProtoLabel::Optional => Cardinality::Optional,
        FieldDescriptorProtoLabel::Required => Cardinality::Required,
        FieldDescriptorProtoLabel::Repeated => Cardinality::Repeated,
    };
    let tn_full: Option<String> = match &field.ty_name {
        Some(_) => match process_field_type_name(field, base_name) {
            Ok(x) => Some(x),
            Err(e) => {
                return Err(e);
            },
        },
        None => None,
    };
    let mut use_base = false;
    match &tn_full {
        Some(t) => {
            let mut j: usize = 0;
            #[verifier::loop_isolation(false)]
            while j < nested.len()
                invariant
                    0 <= j <= nested@.len(),
                    use_base == (exists|k: int|
                        0 <= k < j && Some(t@) == Some(#[trigger] nested_names[k])),
                decreases nested@.len() - j,
            {
                let eq = *t == nested[j].name;
                proof {
                    assert(nested_names[j as int] == nested@[j as int].name@);
                    assert(eq <==> Some(t@) == Some(nested_names[j as int]));
                }
                if eq {
                    use_base = true;
                }
                j += 1;
            }
            let mut k: usize = 0;
            #[verifier::loop_isolation(false)]
            while k < enums.len()
                invariant
                    0 <= k <= enums@.len(),
                    use_base == ((exists|x: int|
                        0 <= x < nested_names.len() && Some(t@) == Some(
                            #[trigger] nested_names[x],
                        )) || (exists|x: int|
                        0 <= x < k && Some(t@) == Some(#[trigger] enum_names[x]))),
                decreases enums@.len() - k,
            {
                let eq = *t == enums[k].name;
                proof {
                    assert(enum_names[k as int] == enums@[k as int].name@);
                    assert(eq <==> Some(t@) == Some(enum_names[k as int]));
                }
                if eq {
                    use_base = true;
                }
                k += 1;
            }
        },
        None => {},
    }
    let ty = match process_field_type(
        field,
        if use_base {
            base_name
        } else {
            ""
        },
    ) {
        Ok(t) => t,
        Err(e) => {
            return Err(e);
        },
    };
    proof {
        reveal_strlit("");
        assert(""@ =~= Seq::<char>::empty());
        reveal_strlit("type");
        reveal_strlit("r#type");
    }
    let default_value: Option<String> = match &field.default_value {
        Some(d) => Some(
            match process_default_value(d.as_str(), &ty) {
                Ok(dv) => dv,
                Err(e) => {
                    return Err(e);
                },
            },
        ),
        None => None,
    };
    Ok(Field { name, cardinality, ty, default_value })
}

/// A processed message standing for a declared one, one level deep: the
/// flattened name; one processed child per nested declaration, carrying
/// the parent's name as prefix; every enum shaped; and every field the
/// exact image of `spec_process_field` against its processed siblings.
pub open spec fn spec_message_shaped(msg: DescriptorProto, base: Seq<char>, m: Message) -> bool {
    &&& msg.name is Some
    &&& m.name@ == base + msg.name->0@
    &&& m.nested@.len() == msg.nested_type@.len()
    &&& m.enums@.len() == msg.enum_type@.len()
    &&& m.fields@.len() == msg.field@.len()
    &&& forall|i: int|
        #![trigger msg.nested_type@[i]]
        0 <= i < msg.nested_type@.len() ==> (msg.nested_type@[i].name is Some
            && m.nested@[i].name@ == m.name@ + msg.nested_type@[i].name->0@)
    &&& forall|i: int|
        #![trigger msg.enum_type@[i]]
        0 <= i < msg.enum_type@.len() ==> spec_enum_shaped(msg.enum_type@[i], m.name@, m.enums@[i])
    &&& forall|i: int|
        #![trigger msg.field@[i]]
        0 <= i < msg.field@.len() ==> spec_process_field(
            field_descriptor_proto_view(msg.field@[i]),
            m.name@,
            Seq::new(m.nested@.len(), |j: int| m.nested@[j].name@),
            Seq::new(m.enums@.len(), |j: int| m.enums@[j].name@),
        ) == Ok::<FieldModel, ErrorModel>(field_view(m.fields@[i]))
}

/// Flattens one declared message: nested declarations take the parent's
/// name as a prefix, enums are renamed, fields resolved against their
/// siblings.
#[verifier::rlimit(100)]
#[verifier::spinoff_prover]
pub fn process_message(msg: &DescriptorProto, base_name: &str) -> (r: Result<Message, Error>)
    ensures
        msg.name is None ==> r is Err,
        match r {
            Ok(m) => spec_message_shaped(*msg, base_name@, m),
            Err(e) => msg.name is None ==> e@ == ErrorModel::Message("message name required"@),
        },
    decreases *msg,
{
    let mn = match &msg.name {
        Some(n) => n,
        None => {
            return Err(Error::Message("message name required".to_owned()));
        },
    };
    let name = concat_str(base_name, mn.as_str());
    let mut nested: Vec<Message> = Vec::new();
    let mut i: usize = 0;
    #[verifier::loop_isolation(false)]
    while i < msg.nested_type.len()
        invariant
            0 <= i <= msg.nested_type@.len(),
            nested@.len() == i,
            forall|j: int|
                #![trigger msg.nested_type@[j]]
                0 <= j < i ==> (msg.nested_type@[j].name is Some && nested@[j].name@ == name@
                    + msg.nested_type@[j].name->0@),
        decreases msg.nested_type@.len() - i,
    {
        let sub = match process_message(&msg.nested_type[i], name.as_str()) {
            Ok(m) => m,
            Err(e) => {
                return Err(e);
            },
        };
        nested.push(sub);
        i += 1;
    }
    let mut enums: Vec<Enum> = Vec::new();
    let mut i: usize = 0;
    #[verifier::loop_isolation(false)]
    while i < msg.enum_type.len()
        invariant
            0 <= i <= msg.enum_type@.len(),
            enums@.len() == i,
            forall|j: int|
                #![trigger msg.enum_type@[j]]
                0 <= j < i ==> spec_enum_shaped(msg.enum_type@[j], name@, enums@[j]),
        decreases msg.enum_type@.len() - i,
    {
        let en = match process_enum(&msg.enum_type[i], name.as_str()) {
            Ok(en) => en,
            Err(e) => {
                return Err(e);
            },
        };
        enums.push(en);
        i += 1;
    }
    let mut fields: Vec<Field> = Vec::new();
    let mut i: usize = 0;
    #[verifier::loop_isolation(false)]
    while i < msg.field.len()
        invariant
            0 <= i <= msg.field@.len(),
            fields@.len() == i,
            forall|j: int|
                #![trigger msg.field@[j]]
                0 <= j < i ==> spec_process_field(
                    field_descriptor_proto_view(msg.field@[j]),
                    name@,
                    Seq::new(nested@.len(), |k: int| nested@[k].name@),
                    Seq::new(enums@.len(), |k: int| enums@[k].name@),
                ) == Ok::<FieldModel, ErrorModel>(field_view(fields@[j])),
        decreases msg.field@.len() - i,
    {
        let fd = match process_field(&msg.field[i], name.as_str(), &nested, &enums) {
            Ok(fd) => fd,
            Err(e) => {
                return Err(e);
            },
        };
        fields.push(fd);
        i += 1;
    }
    Ok(Message { name, nested, enums, fields })
}

/// Flattens every top-level message of one file.
pub fn process_messages(msgs: &Vec<DescriptorProto>) -> (r: Result<Vec<Message>, Error>)
    ensures
        match r {
            Ok(ms) => ms@.len() == msgs@.len() && (forall|i: int|
                #![trigger msgs@[i]]
                0 <= i < msgs@.len() ==> spec_message_shaped(
                    msgs@[i],
                    Seq::<char>::empty(),
                    ms@[i],
                )),
            Err(_) => true,
        },
{
    let mut out: Vec<Message> = Vec::new();
    let mut i: usize = 0;
    proof {
        reveal_strlit("");
    }
    #[verifier::loop_isolation(false)]
    while i < msgs.len()
        invariant
            0 <= i <= msgs@.len(),
            out@.len() == i,
            forall|j: int|
                #![trigger msgs@[j]]
                0 <= j < i ==> spec_message_shaped(msgs@[j], Seq::<char>::empty(), out@[j]),
        decreases msgs@.len() - i,
    {
        let m = match process_message(&msgs[i], "") {
            Ok(m) => m,
            Err(e) => {
                return Err(e);
            },
        };
        proof {
            assert(""@ =~= Seq::<char>::empty());
            assert(spec_message_shaped(msgs@[i as int], Seq::<char>::empty(), m));
        }
        out.push(m);
        i += 1;
    }
    Ok(out)
}

/// A processed file standing for a parsed one: the target path, every
/// dependency's module path, and every top-level message shaped.
pub open spec fn spec_file_shaped(file: FileDescriptorProto, f: File) -> bool {
    &&& file.name is Some
    &&& file.package is Some
    &&& f.path@ == spec_process_path(file.name->0@, file.package->0@)
    &&& f.dependencies@.len() == file.dependency@.len()
    &&& forall|i: int|
        0 <= i < file.dependency@.len() ==> strings_view(#[trigger] f.dependencies@[i]@)
            == spec_process_dependency(file.dependency@[i]@)
    &&& f.messages@.len() == file.message_type@.len()
    &&& forall|i: int|
        #![trigger file.message_type@[i]]
        0 <= i < file.message_type@.len() ==> spec_message_shaped(
            file.message_type@[i],
            Seq::<char>::empty(),
            f.messages@[i],
        )
}

/// Shapes one parsed file for generation: the target path, the module
/// paths of its dependencies, and its flattened messages.
pub fn process_file(file: &FileDescriptorProto) -> (r: Result<File, Error>)
    ensures
        file.name is None || file.package is None ==> r is Err,
        match r {
            Ok(f) => spec_file_shaped(*file, f),
            Err(e) => {
                &&& (file.name is None ==> e@ == ErrorModel::Message("file name required"@))
                &&& (file.name is Some && file.package is None ==> e@ == ErrorModel::Message(
                    "file package required"@,
                ))
            },
        },
{
    let name = match &file.name {
        Some(n) => n,
        None => {
            return Err(Error::Message("file name required".to_owned()));
        },
    };
    let package = match &file.package {
        Some(p) => p,
        None => {
            return Err(Error::Message("file package required".to_owned()));
        },
    };
    let path = process_path(name.as_str(), package.as_str());
    let dependencies = process_dependencies(&file.dependency);
    let messages = match process_messages(&file.message_type) {
        Ok(ms) => ms,
        Err(e) => {
            return Err(e);
        },
    };
    Ok(File { path, dependencies, messages })
}

/// Shapes every file of a request.
pub fn process_files(files: &Vec<FileDescriptorProto>) -> (r: Result<Vec<File>, Error>)
    ensures
        match r {
            Ok(fs) => fs@.len() == files@.len() && (forall|i: int|
                #![trigger files@[i]]
                0 <= i < files@.len() ==> spec_file_shaped(files@[i], fs@[i])),
            Err(_) => true,
        },
{
    let mut out: Vec<File> = Vec::new();
    let mut i: usize = 0;
    #[verifier::loop_isolation(false)]
    while i < files.len()
        invariant
            0 <= i <= files@.len(),
            out@.len() == i,
            forall|j: int|
                #![trigger files@[j]]
                0 <= j < i ==> spec_file_shaped(files@[j], out@[j]),
        decreases files@.len() - i,
    {
        let f = match process_file(&files[i]) {
            Ok(f) => f,
            Err(e) => {
                return Err(e);
            },
        };
        out.push(f);
        i += 1;
    }
    Ok(out)
}

} // verus!
