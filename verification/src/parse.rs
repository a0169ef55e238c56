use vstd::prelude::*;
use vstd::utf8::{valid_utf8, decode_utf8};
use crate::error::{DecodeError, Error, ErrorModel};
use crate::wire::{FieldValue, FieldValueModel, spec_parse_field, spec_parse_varint, parse_next,
    parse_varint};

verus! {

// ------------------------------------------------------------------
// The compiler's plugin request, hand-parsed from its wire form with the
// pull parser.  Unknown fields are faults here: the request grammar is
// closed, and a number outside it means a malformed or newer request.

/// A varint read back as a signed 32-bit value; larger payloads fault.
pub open spec fn spec_varint_i32(v: u64) -> Result<i32, ErrorModel> {
    if v <= 0x7fffffff {
        Ok(v as i32)
    } else {
        Err(ErrorModel::DecodeError(DecodeError::Overflow))
    }
}

fn varint_i32(v: u64) -> (r: Result<i32, Error>)
    ensures
        match r {
            Ok(x) => spec_varint_i32(v) == Ok::<i32, ErrorModel>(x),
            Err(e) => spec_varint_i32(v) == Err::<i32, ErrorModel>(e@),
        },
{
    if v <= 0x7fffffff {
        Ok(v as i32)
    } else {
        Err(Error::DecodeError(DecodeError::Overflow))
    }
}

/// A length-delimited payload read back as UTF-8 text.
pub open spec fn spec_utf8(b: Seq<u8>, name: Seq<char>) -> Result<Seq<char>, ErrorModel> {
    if valid_utf8(b) {
        Ok(decode_utf8(b))
    } else {
        Err(ErrorModel::InvalidUTF8(name))
    }
}

fn utf8_field(b: Vec<u8>, name: &str) -> (r: Result<String, Error>)
    ensures
        match r {
            Ok(st) => spec_utf8(b@, name@) == Ok::<Seq<char>, ErrorModel>(st@),
            Err(e) => spec_utf8(b@, name@) == Err::<Seq<char>, ErrorModel>(e@),
        },
{
    match crate::de::string_from_utf8(&b) {
        Some(st) => Ok(st),
        None => Err(Error::InvalidUTF8(name.to_owned())),
    }
}

/// The signed 32-bit values packed back to back in a payload, as source
/// location paths and spans travel.
pub open spec fn spec_parse_i32s(b: Seq<u8>, acc: Seq<i32>) -> Result<Seq<i32>, ErrorModel>
    decreases b.len(),
{
    if b.len() == 0 {
        Ok(acc)
    } else {
        match spec_parse_varint(b) {
            Ok((v, n)) => if n < 1 || n > b.len() {
                Err(ErrorModel::DecodeError(DecodeError::Eof))
            } else {
                match spec_varint_i32(v as u64) {
                    Ok(x) => spec_parse_i32s(b.skip(n), acc.push(x)),
                    Err(e) => Err(e),
                }
            },
            Err(e) => Err(ErrorModel::DecodeError(e)),
        }
    }
}

fn parse_i32s(b: &Vec<u8>, out: &mut Vec<i32>) -> (r: Result<(), Error>)
    ensures
        match r {
            Ok(_) => spec_parse_i32s(b@, old(out)@) == Ok::<Seq<i32>, ErrorModel>(final(out)@),
            Err(e) => spec_parse_i32s(b@, old(out)@) == Err::<Seq<i32>, ErrorModel>(e@),
        },
{
    let mut pos: usize = 0;
    proof {
        assert(b@.skip(0) =~= b@);
    }
    #[verifier::loop_isolation(false)]
    loop
        invariant
            0 <= pos <= b@.len(),
            match spec_parse_i32s(b@.skip(pos as int), out@) {
                Ok(acc2) => spec_parse_i32s(b@, old(out)@) == Ok::<Seq<i32>, ErrorModel>(acc2),
                Err(e) => spec_parse_i32s(b@, old(out)@) == Err::<Seq<i32>, ErrorModel>(e),
            },
        decreases b@.len() - pos,
    {
        let ghost s_here = b@.skip(pos as int);
        let ghost pos_in = pos;
        if pos >= b.len() {
            return Ok(());
        }
        proof {
            if spec_parse_varint(s_here) is Ok {
                crate::wire::lemma_parse_varint_fits(s_here);
                crate::de::lemma_parse_varint_consumes(s_here, 0);
            }
        }
        let v = match parse_varint(b, &mut pos) {
            Ok(v) => v,
            Err(e) => {
                return Err(Error::DecodeError(e));
            },
        };
        let x = match varint_i32(v) {
            Ok(x) => x,
            Err(e) => {
                return Err(e);
            },
        };
        out.push(x);
        proof {
            assert(b@.skip(pos as int) =~= s_here.skip(pos - pos_in));
        }
    }
}

/// The compiler version carried in a plugin request.
#[derive(Debug, Clone, Default, PartialEq)]
pub struct Version {
    pub major: Option<i32>,
    pub minor: Option<i32>,
    pub patch: Option<i32>,
    pub suffix: Option<String>,
}

/// The ghost image of a `Version`.
pub struct VersionModel {
    pub major: Option<i32>,
    pub minor: Option<i32>,
    pub patch: Option<i32>,
    pub suffix: Option<Seq<char>>,
}

pub open spec fn version_view(v: Version) -> VersionModel {
    VersionModel {
        major: v.major,
        minor: v.minor,
        patch: v.patch,
        suffix: match v.suffix {
            Some(s) => Some(s@),
            None => None,
        },
    }
}

pub open spec fn version_init() -> VersionModel {
    VersionModel { major: None, minor: None, patch: None, suffix: None }
}

/// The fold of version tokens: fields 1 to 3 are varint parts, field 4
/// the suffix text; each occurrence last-wins; any other token faults.
pub open spec fn spec_parse_version(s: Seq<u8>, acc: VersionModel) -> Result<
    VersionModel,
    ErrorModel,
>
    decreases s.len(),
{
    if s.len() == 0 {
        Ok(acc)
    } else {
        match spec_parse_field(s) {
            Err(e) => Err(ErrorModel::DecodeError(e)),
            Ok(((num, fv), n)) => if n < 1 || n > s.len() {
                Err(ErrorModel::DecodeError(DecodeError::Eof))
            } else {
                let step: Result<VersionModel, ErrorModel> = match (num, fv) {
                    (1, FieldValueModel::Varint(v)) => match spec_varint_i32(v) {
                        Ok(x) => Ok(VersionModel { major: Some(x), ..acc }),
                        Err(e) => Err(e),
                    },
                    (2, FieldValueModel::Varint(v)) => match spec_varint_i32(v) {
                        Ok(x) => Ok(VersionModel { minor: Some(x), ..acc }),
                        Err(e) => Err(e),
                    },
                    (3, FieldValueModel::Varint(v)) => match spec_varint_i32(v) {
                        Ok(x) => Ok(VersionModel { patch: Some(x), ..acc }),
                        Err(e) => Err(e),
                    },
                    (4, FieldValueModel::Bytes(b)) => match spec_utf8(b, "suffix"@) {
                        Ok(cs) => Ok(VersionModel { suffix: Some(cs), ..acc }),
                        Err(e) => Err(e),
                    },
                    _ => Err(ErrorModel::FieldNotFound(num as int)),
                };
                match step {
                    Ok(acc2) => spec_parse_version(s.skip(n), acc2),
                    Err(e) => Err(e),
                }
            },
        }
    }
}

fn parse_version(b: &Vec<u8>) -> (r: Result<Version, Error>)
    ensures
        match r {
            Ok(v) => spec_parse_version(b@, version_init()) == Ok::<VersionModel, ErrorModel>(
                version_view(v),
            ),
            Err(e) => spec_parse_version(b@, version_init()) == Err::<VersionModel, ErrorModel>(
                e@,
            ),
        },
{
    let mut ver = Version { major: None, minor: None, patch: None, suffix: None };
    let mut pos: usize = 0;
    proof {
        assert(b@.skip(0) =~= b@);
        assert(version_view(ver) == version_init());
    }
    #[verifier::loop_isolation(false)]
    loop
        invariant
            0 <= pos <= b@.len(),
            match spec_parse_version(b@.skip(pos as int), version_view(ver)) {
                Ok(m) => spec_parse_version(b@, version_init()) == Ok::<VersionModel, ErrorModel>(
                    m,
                ),
                Err(e) => spec_parse_version(b@, version_init()) == Err::<VersionModel, ErrorModel>(
                    e,
                ),
            },
        decreases b@.len() - pos,
    {
        let ghost s_here = b@.skip(pos as int);
        let ghost pos_in = pos;
        if pos >= b.len() {
            return Ok(ver);
        }
        let wf = match parse_next(b, &mut pos) {
            Ok(wf) => wf,
            Err(e) => {
                return Err(Error::DecodeError(e));
            },
        };
        let ghost n = pos - pos_in;
        proof {
            crate::de::lemma_parse_field_consumes(s_here);
            assert(b@.skip(pos as int) =~= s_here.skip(n));
        }
        match (wf.num.get(), wf.val) {
            (1, FieldValue::Varint(v)) => {
                ver.major = Some(
                    match varint_i32(v) {
                        Ok(x) => x,
                        Err(e) => {
                            return Err(e);
                        },
                    },
                );
            },
            (2, FieldValue::Varint(v)) => {
                ver.minor = Some(
                    match varint_i32(v) {
                        Ok(x) => x,
                        Err(e) => {
                            return Err(e);
                        },
                    },
                );
            },
            (3, FieldValue::Varint(v)) => {
                ver.patch = Some(
                    match varint_i32(v) {
                        Ok(x) => x,
                        Err(e) => {
                            return Err(e);
                        },
                    },
                );
            },
            (4, FieldValue::Bytes(pb)) => {
                ver.suffix = Some(
                    match utf8_field(pb, "suffix") {
                        Ok(st) => st,
                        Err(e) => {
                            return Err(e);
                        },
                    },
                );
            },
            (_, _) => {
                return Err(Error::FieldNotFound(wf.num));
            },
        }
    }
}


/// The optimization modes a file may ask for.
#[derive(Debug, Clone, PartialEq, Eq, Structural)]
pub enum FileDescriptorOptimizeMode {
    Speed,
    CodeSize,
    LiteRuntime,
}

impl FileDescriptorOptimizeMode {
    pub open spec fn spec_new(v: i32) -> Option<Self> {
        if v == 1 {
            Some(FileDescriptorOptimizeMode::Speed)
        } else if v == 2 {
            Some(FileDescriptorOptimizeMode::CodeSize)
        } else if v == 3 {
            Some(FileDescriptorOptimizeMode::LiteRuntime)
        } else {
            None
        }
    }

    pub fn try_from(value: i32) -> (r: Result<Self, i32>)
        ensures
            match r {
                Ok(m) => Self::spec_new(value) == Some(m),
                Err(x) => Self::spec_new(value) is None && x == value,
            },
    {
        match value {
            1 => Ok(FileDescriptorOptimizeMode::Speed),
            2 => Ok(FileDescriptorOptimizeMode::CodeSize),
            3 => Ok(FileDescriptorOptimizeMode::LiteRuntime),
            _ => Err(value),
        }
    }
}

impl Default for FileDescriptorOptimizeMode {
    fn default() -> (r: Self)
        ensures
            r == FileDescriptorOptimizeMode::Speed,
    {
        FileDescriptorOptimizeMode::Speed
    }
}

/// How often a declared field may occur.
#[derive(Debug, Clone, PartialEq, Eq, Structural)]
pub enum FieldDescriptorProtoLabel {
    Optional,
    Required,
    Repeated,
}

impl FieldDescriptorProtoLabel {
    pub open spec fn spec_new(v: i32) -> Option<Self> {
        if v == 1 {
            Some(FieldDescriptorProtoLabel::Optional)
        } else if v == 2 {
            Some(FieldDescriptorProtoLabel::Required)
        } else if v == 3 {
            Some(FieldDescriptorProtoLabel::Repeated)
        } else {
            None
        }
    }

    pub fn try_from(value: i32) -> (r: Result<Self, i32>)
        ensures
            match r {
                Ok(m) => Self::spec_new(value) == Some(m),
                Err(x) => Self::spec_new(value) is None && x == value,
            },
    {
        match value {
            1 => Ok(FieldDescriptorProtoLabel::Optional),
            2 => Ok(FieldDescriptorProtoLabel::Required),
            3 => Ok(FieldDescriptorProtoLabel::Repeated),
            _ => Err(value),
        }
    }
}

impl Default for FieldDescriptorProtoLabel {
    fn default() -> (r: Self)
        ensures
            r == FieldDescriptorProtoLabel::Optional,
    {
        FieldDescriptorProtoLabel::Optional
    }
}

/// The declared type of a field, as the compiler numbers them.
#[derive(Debug, Clone, PartialEq, Eq, Structural)]
pub enum FieldDescriptorProtoType {
    Double,
    Float,
    Int64,
    UInt64,
    Int32,
    Fixed64,
    Fixed32,
    Bool,
    String,
    Group,
    Message,
    Bytes,
    UInt32,
    Enum,
    SFixed32,
    SFixed64,
    SInt32,
    SInt64,
}

impl FieldDescriptorProtoType {
    pub open spec fn spec_new(v: i32) -> Option<Self> {
        if v == 1 {
            Some(FieldDescriptorProtoType::Double)
        } else if v == 2 {
            Some(FieldDescriptorProtoType::Float)
        } else if v == 3 {
            Some(FieldDescriptorProtoType::Int64)
        } else if v == 4 {
            Some(FieldDescriptorProtoType::UInt64)
        } else if v == 5 {
            Some(FieldDescriptorProtoType::Int32)
        } else if v == 6 {
            Some(FieldDescriptorProtoType::Fixed64)
        } else if v == 7 {
            Some(FieldDescriptorProtoType::Fixed32)
        } else if v == 8 {
            Some(FieldDescriptorProtoType::Bool)
        } else if v == 9 {
            Some(FieldDescriptorProtoType::String)
        } else if v == 10 {
            Some(FieldDescriptorProtoType::Group)
        } else if v == 11 {
            Some(FieldDescriptorProtoType::Message)
        } else if v == 12 {
            Some(FieldDescriptorProtoType::Bytes)
        } else if v == 13 {
            Some(FieldDescriptorProtoType::UInt32)
        } else if v == 14 {
            Some(FieldDescriptorProtoType::Enum)
        } else if v == 15 {
            Some(FieldDescriptorProtoType::SFixed32)
        } else if v == 16 {
            Some(FieldDescriptorProtoType::SFixed64)
        } else if v == 17 {
            Some(FieldDescriptorProtoType::SInt32)
        } else if v == 18 {
            Some(FieldDescriptorProtoType::SInt64)
        } else {
            None
        }
    }

    pub fn try_from(value: i32) -> (r: Result<Self, i32>)
        ensures
            match r {
                Ok(m) => Self::spec_new(value) == Some(m),
                Err(x) => Self::spec_new(value) is None && x == value,
            },
    {
        match value {
            1 => Ok(FieldDescriptorProtoType::Double),
            2 => Ok(FieldDescriptorProtoType::Float),
            3 => Ok(FieldDescriptorProtoType::Int64),
            4 => Ok(FieldDescriptorProtoType::UInt64),
            5 => Ok(FieldDescriptorProtoType::Int32),
            6 => Ok(FieldDescriptorProtoType::Fixed64),
            7 => Ok(FieldDescriptorProtoType::Fixed32),
            8 => Ok(FieldDescriptorProtoType::Bool),
            9 => Ok(FieldDescriptorProtoType::String),
            10 => Ok(FieldDescriptorProtoType::Group),
            11 => Ok(FieldDescriptorProtoType::Message),
            12 => Ok(FieldDescriptorProtoType::Bytes),
            13 => Ok(FieldDescriptorProtoType::UInt32),
            14 => Ok(FieldDescriptorProtoType::Enum),
            15 => Ok(FieldDescriptorProtoType::SFixed32),
            16 => Ok(FieldDescriptorProtoType::SFixed64),
            17 => Ok(FieldDescriptorProtoType::SInt32),
            18 => Ok(FieldDescriptorProtoType::SInt64),
            _ => Err(value),
        }
    }
}

impl Default for FieldDescriptorProtoType {
    fn default() -> (r: Self)
        ensures
            r == FieldDescriptorProtoType::Double,
    {
        FieldDescriptorProtoType::Double
    }
}

/// The ghost image of a vector of strings, elementwise.
pub open spec fn strings_view(s: Seq<String>) -> Seq<Seq<char>> {
    Seq::new(s.len(), |i: int| s[i]@)
}

/// A length-delimited payload always spans fewer bytes than its token.
proof fn lemma_parse_field_bytes_len(s: Seq<u8>)
    requires
        spec_parse_field(s) is Ok,
        spec_parse_field(s)->Ok_0.0.1 is Bytes,
    ensures
        spec_parse_field(s)->Ok_0.0.1->Bytes_0.len() < spec_parse_field(s)->Ok_0.1,
{
    let t = crate::wire::spec_parse_tag(s);
    crate::de::lemma_parse_varint_consumes(s, 0);
    let n1 = t->Ok_0.1;
    let rest = s.skip(n1);
    crate::de::lemma_parse_varint_consumes(rest, 0);
}

/// File-wide options of one parsed file.
#[derive(Debug, Clone, Default, PartialEq)]
pub struct FileOptions {
    pub java_package: Option<String>,
    pub java_outer_classname: Option<String>,
    pub optimize_for: Option<FileDescriptorOptimizeMode>,
    pub go_package: Option<String>,
    pub cc_enable_arenas: Option<bool>,
    pub objc_class_prefix: Option<String>,
    pub csharp_namespace: Option<String>,
}

/// The ghost image of a `FileOptions`.
pub struct FileOptionsModel {
    pub java_package: Option<Seq<char>>,
    pub java_outer_classname: Option<Seq<char>>,
    pub optimize_for: Option<FileDescriptorOptimizeMode>,
    pub go_package: Option<Seq<char>>,
    pub cc_enable_arenas: Option<bool>,
    pub objc_class_prefix: Option<Seq<char>>,
    pub csharp_namespace: Option<Seq<char>>,
}

pub open spec fn file_options_view(v: FileOptions) -> FileOptionsModel {
    FileOptionsModel {
        java_package: match v.java_package { Some(s) => Some(s@), None => None },
        java_outer_classname: match v.java_outer_classname { Some(s) => Some(s@), None => None },
        optimize_for: v.optimize_for,
        go_package: match v.go_package { Some(s) => Some(s@), None => None },
        cc_enable_arenas: v.cc_enable_arenas,
        objc_class_prefix: match v.objc_class_prefix { Some(s) => Some(s@), None => None },
        csharp_namespace: match v.csharp_namespace { Some(s) => Some(s@), None => None },
    }
}

pub open spec fn file_options_init() -> FileOptionsModel {
    FileOptionsModel {
        java_package: None,
        java_outer_classname: None,
        optimize_for: None,
        go_package: None,
        cc_enable_arenas: None,
        objc_class_prefix: None,
        csharp_namespace: None,
    }
}

/// The fold of `FileOptions` tokens, one per step, last-wins for
/// singular fields and appending for repeated ones.
pub open spec fn spec_parse_file_options(s: Seq<u8>, acc: FileOptionsModel) -> Result<
    FileOptionsModel,
    ErrorModel,
>
    decreases s.len(), 0int,
{
    if s.len() == 0 {
        Ok(acc)
    } else {
        match spec_parse_field(s) {
            Err(e) => Err(ErrorModel::DecodeError(e)),
            Ok(((num, fv), n)) => if n < 1 || n > s.len() {
                Err(ErrorModel::DecodeError(DecodeError::Eof))
            } else {
                let step: Result<FileOptionsModel, ErrorModel> = match (num, fv) {
                    (1, FieldValueModel::Bytes(b)) => match spec_utf8(b, "java_package"@) {
                        Ok(cs) => Ok(FileOptionsModel { java_package: Some(cs), ..acc }),
                        Err(e) => Err(e),
                    },
                    (8, FieldValueModel::Bytes(b)) => match spec_utf8(b, "java_outer_classname"@) {
                        Ok(cs) => Ok(FileOptionsModel { java_outer_classname: Some(cs), ..acc }),
                        Err(e) => Err(e),
                    },
                    (9, FieldValueModel::Varint(v)) => match spec_varint_i32(v) {
                        Ok(x) => match FileDescriptorOptimizeMode::spec_new(x) {
                            Some(e2) => Ok(FileOptionsModel { optimize_for: Some(e2), ..acc }),
                            None => Err(ErrorModel::Message("invalid enum value"@)),
                        },
                        Err(e) => Err(e),
                    },
                    (11, FieldValueModel::Bytes(b)) => match spec_utf8(b, "go_package"@) {
                        Ok(cs) => Ok(FileOptionsModel { go_package: Some(cs), ..acc }),
                        Err(e) => Err(e),
                    },
                    (31, FieldValueModel::Varint(v)) => Ok(FileOptionsModel { cc_enable_arenas: Some(v != 0), ..acc }),
                    (36, FieldValueModel::Bytes(b)) => match spec_utf8(b, "objc_class_prefix"@) {
                        Ok(cs) => Ok(FileOptionsModel { objc_class_prefix: Some(cs), ..acc }),
                        Err(e) => Err(e),
                    },
                    (37, FieldValueModel::Bytes(b)) => match spec_utf8(b, "csharp_namespace"@) {
                        Ok(cs) => Ok(FileOptionsModel { csharp_namespace: Some(cs), ..acc }),
                        Err(e) => Err(e),
                    },
                    _ => Err(ErrorModel::FieldNotFound(num as int)),
                };
                match step {
                    Ok(acc2) => spec_parse_file_options(s.skip(n), acc2),
                    Err(e) => Err(e),
                }
            },
        }
    }
}

fn parse_file_options(b: &Vec<u8>) -> (r: Result<FileOptions, Error>)
    ensures
        match r {
            Ok(v) => spec_parse_file_options(b@, file_options_init()) == Ok::<FileOptionsModel, ErrorModel>(
                file_options_view(v),
            ),
            Err(e) => spec_parse_file_options(b@, file_options_init()) == Err::<FileOptionsModel, ErrorModel>(e@),
        },
{
    let mut acc = FileOptions {
        java_package: None,
        java_outer_classname: None,
        optimize_for: None,
        go_package: None,
        cc_enable_arenas: None,
        objc_class_prefix: None,
        csharp_namespace: None,
    };
    let mut pos: usize = 0;
    proof {
        assert(b@.skip(0) =~= b@);
        assert(file_options_view(acc) == file_options_init());
    }
    #[verifier::loop_isolation(false)]
    loop
        invariant
            0 <= pos <= b@.len(),
            match spec_parse_file_options(b@.skip(pos as int), file_options_view(acc)) {
                Ok(m) => spec_parse_file_options(b@, file_options_init()) == Ok::<FileOptionsModel, ErrorModel>(m),
                Err(e) => spec_parse_file_options(b@, file_options_init()) == Err::<FileOptionsModel, ErrorModel>(
                    e,
                ),
            },
        decreases b@.len() - pos,
    {
        let ghost s_here = b@.skip(pos as int);
        let ghost pos_in = pos;
        let ghost acc_in = file_options_view(acc);
        if pos >= b.len() {
            return Ok(acc);
        }
        let wf = match parse_next(b, &mut pos) {
            Ok(wf) => wf,
            Err(e) => {
                return Err(Error::DecodeError(e));
            },
        };
        let ghost n = pos - pos_in;
        proof {
            crate::de::lemma_parse_field_consumes(s_here);
            assert(b@.skip(pos as int) =~= s_here.skip(n));
        }
        match (wf.num.get(), wf.val) {
            (1, FieldValue::Bytes(pb)) => {
                acc.java_package = Some(
                    match utf8_field(pb, "java_package") {
                        Ok(st) => st,
                        Err(e) => {
                            return Err(e);
                        },
                    },
                );
            },
            (8, FieldValue::Bytes(pb)) => {
                acc.java_outer_classname = Some(
                    match utf8_field(pb, "java_outer_classname") {
                        Ok(st) => st,
                        Err(e) => {
                            return Err(e);
                        },
                    },
                );
            },
            (9, FieldValue::Varint(v)) => {
                let x = match varint_i32(v) {
                    Ok(x) => x,
                    Err(e) => {
                        return Err(e);
                    },
                };
                acc.optimize_for = Some(
                    match FileDescriptorOptimizeMode::try_from(x) {
                        Ok(e2) => e2,
                        Err(_) => {
                            return Err(Error::Message("invalid enum value".to_owned()));
                        },
                    },
                );
            },
            (11, FieldValue::Bytes(pb)) => {
                acc.go_package = Some(
                    match utf8_field(pb, "go_package") {
                        Ok(st) => st,
                        Err(e) => {
                            return Err(e);
                        },
                    },
                );
            },
            (31, FieldValue::Varint(v)) => {
                acc.cc_enable_arenas = Some(v != 0);
            },
            (36, FieldValue::Bytes(pb)) => {
                acc.objc_class_prefix = Some(
                    match utf8_field(pb, "objc_class_prefix") {
                        Ok(st) => st,
                        Err(e) => {
                            return Err(e);
                        },
                    },
                );
            },
            (37, FieldValue::Bytes(pb)) => {
                acc.csharp_namespace = Some(
                    match utf8_field(pb, "csharp_namespace") {
                        Ok(st) => st,
                        Err(e) => {
                            return Err(e);
                        },
                    },
                );
            },
            (_, _) => {
                return Err(Error::FieldNotFound(wf.num));
            },
        }
    }
}

/// One source location record, with its packed path and span.
#[derive(Debug, Clone, Default, PartialEq)]
pub struct SourceCodeInfoLocation {
    pub path: Vec<i32>,
    pub span: Vec<i32>,
    pub leading_comments: Option<String>,
    pub trailing_comments: Option<String>,
    pub leading_detached_comments: Vec<String>,
}

/// The ghost image of a `SourceCodeInfoLocation`.
pub struct SourceCodeInfoLocationModel {
    pub path: Seq<i32>,
    pub span: Seq<i32>,
    pub leading_comments: Option<Seq<char>>,
    pub trailing_comments: Option<Seq<char>>,
    pub leading_detached_comments: Seq<Seq<char>>,
}

pub open spec fn source_code_info_location_view(v: SourceCodeInfoLocation) -> SourceCodeInfoLocationModel {
    SourceCodeInfoLocationModel {
        path: v.path@,
        span: v.span@,
        leading_comments: match v.leading_comments { Some(s) => Some(s@), None => None },
        trailing_comments: match v.trailing_comments { Some(s) => Some(s@), None => None },
        leading_detached_comments: strings_view(v.leading_detached_comments@),
    }
}

pub open spec fn source_code_info_location_init() -> SourceCodeInfoLocationModel {
    SourceCodeInfoLocationModel {
        path: Seq::empty(),
        span: Seq::empty(),
        leading_comments: None,
        trailing_comments: None,
        leading_detached_comments: Seq::empty(),
    }
}

/// The fold of `SourceCodeInfoLocation` tokens, one per step, last-wins for
/// singular fields and appending for repeated ones.
pub open spec fn spec_parse_source_code_info_location(s: Seq<u8>, acc: SourceCodeInfoLocationModel) -> Result<
    SourceCodeInfoLocationModel,
    ErrorModel,
>
    decreases s.len(), 0int,
{
    if s.len() == 0 {
        Ok(acc)
    } else {
        match spec_parse_field(s) {
            Err(e) => Err(ErrorModel::DecodeError(e)),
            Ok(((num, fv), n)) => if n < 1 || n > s.len() {
                Err(ErrorModel::DecodeError(DecodeError::Eof))
            } else {
                let step: Result<SourceCodeInfoLocationModel, ErrorModel> = match (num, fv) {
                    (1, FieldValueModel::Bytes(b)) => match spec_parse_i32s(b, acc.path) {
                        Ok(xs) => Ok(SourceCodeInfoLocationModel { path: xs, ..acc }),
                        Err(e) => Err(e),
                    },
                    (2, FieldValueModel::Bytes(b)) => match spec_parse_i32s(b, acc.span) {
                        Ok(xs) => Ok(SourceCodeInfoLocationModel { span: xs, ..acc }),
                        Err(e) => Err(e),
                    },
                    (3, FieldValueModel::Bytes(b)) => match spec_utf8(b, "leading_comments"@) {
                        Ok(cs) => Ok(SourceCodeInfoLocationModel { leading_comments: Some(cs), ..acc }),
                        Err(e) => Err(e),
                    },
                    (4, FieldValueModel::Bytes(b)) => match spec_utf8(b, "trailing_comments"@) {
                        Ok(cs) => Ok(SourceCodeInfoLocationModel { trailing_comments: Some(cs), ..acc }),
                        Err(e) => Err(e),
                    },
                    (6, FieldValueModel::Bytes(b)) => match spec_utf8(b, "leading_detached_comments"@) {
                        Ok(cs) => Ok(SourceCodeInfoLocationModel { leading_detached_comments: acc.leading_detached_comments.push(cs), ..acc }),
                        Err(e) => Err(e),
                    },
                    _ => Err(ErrorModel::FieldNotFound(num as int)),
                };
                match step {
                    Ok(acc2) => spec_parse_source_code_info_location(s.skip(n), acc2),
                    Err(e) => Err(e),
                }
            },
        }
    }
}

fn parse_source_code_info_location(b: &Vec<u8>) -> (r: Result<SourceCodeInfoLocation, Error>)
    ensures
        match r {
            Ok(v) => spec_parse_source_code_info_location(b@, source_code_info_location_init()) == Ok::<SourceCodeInfoLocationModel, ErrorModel>(
                source_code_info_location_view(v),
            ),
            Err(e) => spec_parse_source_code_info_location(b@, source_code_info_location_init()) == Err::<SourceCodeInfoLocationModel, ErrorModel>(e@),
        },
{
    let mut acc = SourceCodeInfoLocation {
        path: Vec::new(),
        span: Vec::new(),
        leading_comments: None,
        trailing_comments: None,
        leading_detached_comments: Vec::new(),
    };
    let mut pos: usize = 0;
    proof {
        assert(b@.skip(0) =~= b@);
        assert(strings_view(acc.leading_detached_comments@) =~= Seq::<Seq<char>>::empty());
        assert(source_code_info_location_view(acc) == source_code_info_location_init());
    }
    #[verifier::loop_isolation(false)]
    loop
        invariant
            0 <= pos <= b@.len(),
            match spec_parse_source_code_info_location(b@.skip(pos as int), source_code_info_location_view(acc)) {
                Ok(m) => spec_parse_source_code_info_location(b@, source_code_info_location_init()) == Ok::<SourceCodeInfoLocationModel, ErrorModel>(m),
                Err(e) => spec_parse_source_code_info_location(b@, source_code_info_location_init()) == Err::<SourceCodeInfoLocationModel, ErrorModel>(
                    e,
                ),
            },
        decreases b@.len() - pos,
    {
        let ghost s_here = b@.skip(pos as int);
        let ghost pos_in = pos;
        let ghost acc_in = source_code_info_location_view(acc);
        if pos >= b.len() {
            return Ok(acc);
        }
        let wf = match parse_next(b, &mut pos) {
            Ok(wf) => wf,
            Err(e) => {
                return Err(Error::DecodeError(e));
            },
        };
        let ghost n = pos - pos_in;
        proof {
            crate::de::lemma_parse_field_consumes(s_here);
            assert(b@.skip(pos as int) =~= s_here.skip(n));
        }
        match (wf.num.get(), wf.val) {
            (1, FieldValue::Bytes(pb)) => {
                match parse_i32s(&pb, &mut acc.path) {
                    Ok(_) => {},
                    Err(e) => {
                        return Err(e);
                    },
                }
            },
            (2, FieldValue::Bytes(pb)) => {
                match parse_i32s(&pb, &mut acc.span) {
                    Ok(_) => {},
                    Err(e) => {
                        return Err(e);
                    },
                }
            },
            (3, FieldValue::Bytes(pb)) => {
                acc.leading_comments = Some(
                    match utf8_field(pb, "leading_comments") {
                        Ok(st) => st,
                        Err(e) => {
                            return Err(e);
                        },
                    },
                );
            },
            (4, FieldValue::Bytes(pb)) => {
                acc.trailing_comments = Some(
                    match utf8_field(pb, "trailing_comments") {
                        Ok(st) => st,
                        Err(e) => {
                            return Err(e);
                        },
                    },
                );
            },
            (6, FieldValue::Bytes(pb)) => {
                let ghost before = strings_view(acc.leading_detached_comments@);
                let st = match utf8_field(pb, "leading_detached_comments") {
                    Ok(st) => st,
                    Err(e) => {
                        return Err(e);
                    },
                };
                let ghost stv = st@;
                acc.leading_detached_comments.push(st);
                proof {
                    assert(strings_view(acc.leading_detached_comments@) =~= before.push(stv));
                }
            },
            (_, _) => {
                return Err(Error::FieldNotFound(wf.num));
            },
        }
    }
}

/// The source location table of one file.
#[derive(Debug, Clone, Default, PartialEq)]
pub struct SourceCodeInfo {
    pub location: Vec<SourceCodeInfoLocation>,
}

/// The ghost image of a `SourceCodeInfo`.
pub struct SourceCodeInfoModel {
    pub location: Seq<SourceCodeInfoLocationModel>,
}

pub open spec fn source_code_info_view(v: SourceCodeInfo) -> SourceCodeInfoModel {
    SourceCodeInfoModel {
        location: Seq::new(v.location@.len(), |i: int| source_code_info_location_view(v.location@[i])),
    }
}

pub open spec fn source_code_info_init() -> SourceCodeInfoModel {
    SourceCodeInfoModel {
        location: Seq::empty(),
    }
}

/// The fold of `SourceCodeInfo` tokens, one per step, last-wins for
/// singular fields and appending for repeated ones.
pub open spec fn spec_parse_source_code_info(s: Seq<u8>, acc: SourceCodeInfoModel) -> Result<
    SourceCodeInfoModel,
    ErrorModel,
>
    decreases s.len(), 0int,
{
    if s.len() == 0 {
        Ok(acc)
    } else {
        match spec_parse_field(s) {
            Err(e) => Err(ErrorModel::DecodeError(e)),
            Ok(((num, fv), n)) => if n < 1 || n > s.len() {
                Err(ErrorModel::DecodeError(DecodeError::Eof))
            } else {
                let step: Result<SourceCodeInfoModel, ErrorModel> = match (num, fv) {
                    (1, FieldValueModel::Bytes(b)) => if b.len() >= s.len() {
                        Err(ErrorModel::DecodeError(DecodeError::Eof))
                    } else {
                        match spec_parse_source_code_info_location(b, source_code_info_location_init()) {
                            Ok(mm) => Ok(SourceCodeInfoModel { location: acc.location.push(mm), ..acc }),
                            Err(e) => Err(e),
                        }
                    },
                    _ => Err(ErrorModel::FieldNotFound(num as int)),
                };
                match step {
                    Ok(acc2) => spec_parse_source_code_info(s.skip(n), acc2),
                    Err(e) => Err(e),
                }
            },
        }
    }
}

fn parse_source_code_info(b: &Vec<u8>) -> (r: Result<SourceCodeInfo, Error>)
    ensures
        match r {
            Ok(v) => spec_parse_source_code_info(b@, source_code_info_init()) == Ok::<SourceCodeInfoModel, ErrorModel>(
                source_code_info_view(v),
            ),
            Err(e) => spec_parse_source_code_info(b@, source_code_info_init()) == Err::<SourceCodeInfoModel, ErrorModel>(e@),
        },
{
    let mut acc = SourceCodeInfo {
        location: Vec::new(),
    };
    let mut pos: usize = 0;
    proof {
        assert(b@.skip(0) =~= b@);
        assert(Seq::new(
            acc.location@.len(),
            |i: int| source_code_info_location_view(acc.location@[i]),
        ) =~= Seq::<SourceCodeInfoLocationModel>::empty());
        assert(source_code_info_view(acc) == source_code_info_init());
    }
    #[verifier::loop_isolation(false)]
    loop
        invariant
            0 <= pos <= b@.len(),
            match spec_parse_source_code_info(b@.skip(pos as int), source_code_info_view(acc)) {
                Ok(m) => spec_parse_source_code_info(b@, source_code_info_init()) == Ok::<SourceCodeInfoModel, ErrorModel>(m),
                Err(e) => spec_parse_source_code_info(b@, source_code_info_init()) == Err::<SourceCodeInfoModel, ErrorModel>(
                    e,
                ),
            },
        decreases b@.len() - pos,
    {
        let ghost s_here = b@.skip(pos as int);
        let ghost pos_in = pos;
        let ghost acc_in = source_code_info_view(acc);
        if pos >= b.len() {
            return Ok(acc);
        }
        let wf = match parse_next(b, &mut pos) {
            Ok(wf) => wf,
            Err(e) => {
                return Err(Error::DecodeError(e));
            },
        };
        let ghost n = pos - pos_in;
        proof {
            crate::de::lemma_parse_field_consumes(s_here);
            assert(b@.skip(pos as int) =~= s_here.skip(n));
        }
        match (wf.num.get(), wf.val) {
            (1, FieldValue::Bytes(pb)) => {
                proof {
                    lemma_parse_field_bytes_len(s_here);
                }
                let ghost before = Seq::new(acc.location@.len(), |i: int| source_code_info_location_view(acc.location@[i]));
                let x = match parse_source_code_info_location(&pb) {
                    Ok(x) => x,
                    Err(e) => {
                        return Err(e);
                    },
                };
                let ghost xv = source_code_info_location_view(x);
                acc.location.push(x);
                proof {
                    assert(Seq::new(acc.location@.len(), |i: int| source_code_info_location_view(acc.location@[i])) =~= before.push(xv));
                }
            },
            (_, _) => {
                return Err(Error::FieldNotFound(wf.num));
            },
        }
    }
}

/// A reserved number range of a message.
#[derive(Debug, Clone, Default, PartialEq)]
pub struct DescriptorProtoReservedRange {
    pub start: Option<i32>,
    pub end: Option<i32>,
}

/// The ghost image of a `DescriptorProtoReservedRange`.
pub struct DescriptorProtoReservedRangeModel {
    pub start: Option<i32>,
    pub end: Option<i32>,
}

pub open spec fn descriptor_proto_reserved_range_view(v: DescriptorProtoReservedRange) -> DescriptorProtoReservedRangeModel {
    DescriptorProtoReservedRangeModel {
        start: v.start,
        end: v.end,
    }
}

pub open spec fn descriptor_proto_reserved_range_init() -> DescriptorProtoReservedRangeModel {
    DescriptorProtoReservedRangeModel {
        start: None,
        end: None,
    }
}

/// The fold of `DescriptorProtoReservedRange` tokens, one per step, last-wins for
/// singular fields and appending for repeated ones.
pub open spec fn spec_parse_descriptor_proto_reserved_range(s: Seq<u8>, acc: DescriptorProtoReservedRangeModel) -> Result<
    DescriptorProtoReservedRangeModel,
    ErrorModel,
>
    decreases s.len(), 0int,
{
    if s.len() == 0 {
        Ok(acc)
    } else {
        match spec_parse_field(s) {
            Err(e) => Err(ErrorModel::DecodeError(e)),
            Ok(((num, fv), n)) => if n < 1 || n > s.len() {
                Err(ErrorModel::DecodeError(DecodeError::Eof))
            } else {
                let step: Result<DescriptorProtoReservedRangeModel, ErrorModel> = match (num, fv) {
                    (1, FieldValueModel::Varint(v)) => match spec_varint_i32(v) {
                        Ok(x) => Ok(DescriptorProtoReservedRangeModel { start: Some(x), ..acc }),
                        Err(e) => Err(e),
                    },
                    (2, FieldValueModel::Varint(v)) => match spec_varint_i32(v) {
                        Ok(x) => Ok(DescriptorProtoReservedRangeModel { end: Some(x), ..acc }),
                        Err(e) => Err(e),
                    },
                    _ => Err(ErrorModel::FieldNotFound(num as int)),
                };
                match step {
                    Ok(acc2) => spec_parse_descriptor_proto_reserved_range(s.skip(n), acc2),
                    Err(e) => Err(e),
                }
            },
        }
    }
}

fn parse_descriptor_proto_reserved_range(b: &Vec<u8>) -> (r: Result<DescriptorProtoReservedRange, Error>)
    ensures
        match r {
            Ok(v) => spec_parse_descriptor_proto_reserved_range(b@, descriptor_proto_reserved_range_init()) == Ok::<DescriptorProtoReservedRangeModel, ErrorModel>(
                descriptor_proto_reserved_range_view(v),
            ),
            Err(e) => spec_parse_descriptor_proto_reserved_range(b@, descriptor_proto_reserved_range_init()) == Err::<DescriptorProtoReservedRangeModel, ErrorModel>(e@),
        },
{
    let mut acc = DescriptorProtoReservedRange {
        start: None,
        end: None,
    };
    let mut pos: usize = 0;
    proof {
        assert(b@.skip(0) =~= b@);
        assert(descriptor_proto_reserved_range_view(acc) == descriptor_proto_reserved_range_init());
    }
    #[verifier::loop_isolation(false)]
    loop
        invariant
            0 <= pos <= b@.len(),
            match spec_parse_descriptor_proto_reserved_range(b@.skip(pos as int), descriptor_proto_reserved_range_view(acc)) {
                Ok(m) => spec_parse_descriptor_proto_reserved_range(b@, descriptor_proto_reserved_range_init()) == Ok::<DescriptorProtoReservedRangeModel, ErrorModel>(m),
                Err(e) => spec_parse_descriptor_proto_reserved_range(b@, descriptor_proto_reserved_range_init()) == Err::<DescriptorProtoReservedRangeModel, ErrorModel>(
                    e,
                ),
            },
        decreases b@.len() - pos,
    {
        let ghost s_here = b@.skip(pos as int);
        let ghost pos_in = pos;
        let ghost acc_in = descriptor_proto_reserved_range_view(acc);
        if pos >= b.len() {
            return Ok(acc);
        }
        let wf = match parse_next(b, &mut pos) {
            Ok(wf) => wf,
            Err(e) => {
                return Err(Error::DecodeError(e));
            },
        };
        let ghost n = pos - pos_in;
        proof {
            crate::de::lemma_parse_field_consumes(s_here);
            assert(b@.skip(pos as int) =~= s_here.skip(n));
        }
        match (wf.num.get(), wf.val) {
            (1, FieldValue::Varint(v)) => {
                acc.start = Some(
                    match varint_i32(v) {
                        Ok(x) => x,
                        Err(e) => {
                            return Err(e);
                        },
                    },
                );
            },
            (2, FieldValue::Varint(v)) => {
                acc.end = Some(
                    match varint_i32(v) {
                        Ok(x) => x,
                        Err(e) => {
                            return Err(e);
                        },
                    },
                );
            },
            (_, _) => {
                return Err(Error::FieldNotFound(wf.num));
            },
        }
    }
}

/// An extension number range of a message.
#[derive(Debug, Clone, Default, PartialEq)]
pub struct DescriptorProtoExtensionRange {
    pub start: Option<i32>,
    pub end: Option<i32>,
}

/// The ghost image of a `DescriptorProtoExtensionRange`.
pub struct DescriptorProtoExtensionRangeModel {
    pub start: Option<i32>,
    pub end: Option<i32>,
}

pub open spec fn descriptor_proto_extension_range_view(v: DescriptorProtoExtensionRange) -> DescriptorProtoExtensionRangeModel {
    DescriptorProtoExtensionRangeModel {
        start: v.start,
        end: v.end,
    }
}

pub open spec fn descriptor_proto_extension_range_init() -> DescriptorProtoExtensionRangeModel {
    DescriptorProtoExtensionRangeModel {
        start: None,
        end: None,
    }
}

/// The fold of `DescriptorProtoExtensionRange` tokens, one per step, last-wins for
/// singular fields and appending for repeated ones.
pub open spec fn spec_parse_descriptor_proto_extension_range(s: Seq<u8>, acc: DescriptorProtoExtensionRangeModel) -> Result<
    DescriptorProtoExtensionRangeModel,
    ErrorModel,
>
    decreases s.len(), 0int,
{
    if s.len() == 0 {
        Ok(acc)
    } else {
        match spec_parse_field(s) {
            Err(e) => Err(ErrorModel::DecodeError(e)),
            Ok(((num, fv), n)) => if n < 1 || n > s.len() {
                Err(ErrorModel::DecodeError(DecodeError::Eof))
            } else {
                let step: Result<DescriptorProtoExtensionRangeModel, ErrorModel> = match (num, fv) {
                    (1, FieldValueModel::Varint(v)) => match spec_varint_i32(v) {
                        Ok(x) => Ok(DescriptorProtoExtensionRangeModel { start: Some(x), ..acc }),
                        Err(e) => Err(e),
                    },
                    (2, FieldValueModel::Varint(v)) => match spec_varint_i32(v) {
                        Ok(x) => Ok(DescriptorProtoExtensionRangeModel { end: Some(x), ..acc }),
                        Err(e) => Err(e),
                    },
                    _ => Err(ErrorModel::FieldNotFound(num as int)),
                };
                match step {
                    Ok(acc2) => spec_parse_descriptor_proto_extension_range(s.skip(n), acc2),
                    Err(e) => Err(e),
                }
            },
        }
    }
}

fn parse_descriptor_proto_extension_range(b: &Vec<u8>) -> (r: Result<DescriptorProtoExtensionRange, Error>)
    ensures
        match r {
            Ok(v) => spec_parse_descriptor_proto_extension_range(b@, descriptor_proto_extension_range_init()) == Ok::<DescriptorProtoExtensionRangeModel, ErrorModel>(
                descriptor_proto_extension_range_view(v),
            ),
            Err(e) => spec_parse_descriptor_proto_extension_range(b@, descriptor_proto_extension_range_init()) == Err::<DescriptorProtoExtensionRangeModel, ErrorModel>(e@),
        },
{
    let mut acc = DescriptorProtoExtensionRange {
        start: None,
        end: None,
    };
    let mut pos: usize = 0;
    proof {
        assert(b@.skip(0) =~= b@);
        assert(descriptor_proto_extension_range_view(acc) == descriptor_proto_extension_range_init());
    }
    #[verifier::loop_isolation(false)]
    loop
        invariant
            0 <= pos <= b@.len(),
            match spec_parse_descriptor_proto_extension_range(b@.skip(pos as int), descriptor_proto_extension_range_view(acc)) {
                Ok(m) => spec_parse_descriptor_proto_extension_range(b@, descriptor_proto_extension_range_init()) == Ok::<DescriptorProtoExtensionRangeModel, ErrorModel>(m),
                Err(e) => spec_parse_descriptor_proto_extension_range(b@, descriptor_proto_extension_range_init()) == Err::<DescriptorProtoExtensionRangeModel, ErrorModel>(
                    e,
                ),
            },
        decreases b@.len() - pos,
    {
        let ghost s_here = b@.skip(pos as int);
        let ghost pos_in = pos;
        let ghost acc_in = descriptor_proto_extension_range_view(acc);
        if pos >= b.len() {
            return Ok(acc);
        }
        let wf = match parse_next(b, &mut pos) {
            Ok(wf) => wf,
            Err(e) => {
                return Err(Error::DecodeError(e));
            },
        };
        let ghost n = pos - pos_in;
        proof {
            crate::de::lemma_parse_field_consumes(s_here);
            assert(b@.skip(pos as int) =~= s_here.skip(n));
        }
        match (wf.num.get(), wf.val) {
            (1, FieldValue::Varint(v)) => {
                acc.start = Some(
                    match varint_i32(v) {
                        Ok(x) => x,
                        Err(e) => {
                            return Err(e);
                        },
                    },
                );
            },
            (2, FieldValue::Varint(v)) => {
                acc.end = Some(
                    match varint_i32(v) {
                        Ok(x) => x,
                        Err(e) => {
                            return Err(e);
                        },
                    },
                );
            },
            (_, _) => {
                return Err(Error::FieldNotFound(wf.num));
            },
        }
    }
}

/// One declared enum value.
#[derive(Debug, Clone, Default, PartialEq)]
pub struct EnumValueDescriptorProto {
    pub name: Option<String>,
    pub number: Option<i32>,
}

/// The ghost image of a `EnumValueDescriptorProto`.
pub struct EnumValueDescriptorProtoModel {
    pub name: Option<Seq<char>>,
    pub number: Option<i32>,
}

pub open spec fn enum_value_descriptor_proto_view(v: EnumValueDescriptorProto) -> EnumValueDescriptorProtoModel {
    EnumValueDescriptorProtoModel {
        name: match v.name { Some(s) => Some(s@), None => None },
        number: v.number,
    }
}

pub open spec fn enum_value_descriptor_proto_init() -> EnumValueDescriptorProtoModel {
    EnumValueDescriptorProtoModel {
        name: None,
        number: None,
    }
}

/// The fold of `EnumValueDescriptorProto` tokens, one per step, last-wins for
/// singular fields and appending for repeated ones.
pub open spec fn spec_parse_enum_value_descriptor_proto(s: Seq<u8>, acc: EnumValueDescriptorProtoModel) -> Result<
    EnumValueDescriptorProtoModel,
    ErrorModel,
>
    decreases s.len(), 0int,
{
    if s.len() == 0 {
        Ok(acc)
    } else {
        match spec_parse_field(s) {
            Err(e) => Err(ErrorModel::DecodeError(e)),
            Ok(((num, fv), n)) => if n < 1 || n > s.len() {
                Err(ErrorModel::DecodeError(DecodeError::Eof))
            } else {
                let step: Result<EnumValueDescriptorProtoModel, ErrorModel> = match (num, fv) {
                    (1, FieldValueModel::Bytes(b)) => match spec_utf8(b, "name"@) {
                        Ok(cs) => Ok(EnumValueDescriptorProtoModel { name: Some(cs), ..acc }),
                        Err(e) => Err(e),
                    },
                    (2, FieldValueModel::Varint(v)) => match spec_varint_i32(v) {
                        Ok(x) => Ok(EnumValueDescriptorProtoModel { number: Some(x), ..acc }),
                        Err(e) => Err(e),
                    },
                    _ => Err(ErrorModel::FieldNotFound(num as int)),
                };
                match step {
                    Ok(acc2) => spec_parse_enum_value_descriptor_proto(s.skip(n), acc2),
                    Err(e) => Err(e),
                }
            },
        }
    }
}

fn parse_enum_value_descriptor_proto(b: &Vec<u8>) -> (r: Result<EnumValueDescriptorProto, Error>)
    ensures
        match r {
            Ok(v) => spec_parse_enum_value_descriptor_proto(b@, enum_value_descriptor_proto_init()) == Ok::<EnumValueDescriptorProtoModel, ErrorModel>(
                enum_value_descriptor_proto_view(v),
            ),
            Err(e) => spec_parse_enum_value_descriptor_proto(b@, enum_value_descriptor_proto_init()) == Err::<EnumValueDescriptorProtoModel, ErrorModel>(e@),
        },
{
    let mut acc = EnumValueDescriptorProto {
        name: None,
        number: None,
    };
    let mut pos: usize = 0;
    proof {
        assert(b@.skip(0) =~= b@);
        assert(enum_value_descriptor_proto_view(acc) == enum_value_descriptor_proto_init());
    }
    #[verifier::loop_isolation(false)]
    loop
        invariant
            0 <= pos <= b@.len(),
            match spec_parse_enum_value_descriptor_proto(b@.skip(pos as int), enum_value_descriptor_proto_view(acc)) {
                Ok(m) => spec_parse_enum_value_descriptor_proto(b@, enum_value_descriptor_proto_init()) == Ok::<EnumValueDescriptorProtoModel, ErrorModel>(m),
                Err(e) => spec_parse_enum_value_descriptor_proto(b@, enum_value_descriptor_proto_init()) == Err::<EnumValueDescriptorProtoModel, ErrorModel>(
                    e,
                ),
            },
        decreases b@.len() - pos,
    {
        let ghost s_here = b@.skip(pos as int);
        let ghost pos_in = pos;
        let ghost acc_in = enum_value_descriptor_proto_view(acc);
        if pos >= b.len() {
            return Ok(acc);
        }
        let wf = match parse_next(b, &mut pos) {
            Ok(wf) => wf,
            Err(e) => {
                return Err(Error::DecodeError(e));
            },
        };
        let ghost n = pos - pos_in;
        proof {
            crate::de::lemma_parse_field_consumes(s_here);
            assert(b@.skip(pos as int) =~= s_here.skip(n));
        }
        match (wf.num.get(), wf.val) {
            (1, FieldValue::Bytes(pb)) => {
                acc.name = Some(
                    match utf8_field(pb, "name") {
                        Ok(st) => st,
                        Err(e) => {
                            return Err(e);
                        },
                    },
                );
            },
            (2, FieldValue::Varint(v)) => {
                acc.number = Some(
                    match varint_i32(v) {
                        Ok(x) => x,
                        Err(e) => {
                            return Err(e);
                        },
                    },
                );
            },
            (_, _) => {
                return Err(Error::FieldNotFound(wf.num));
            },
        }
    }
}

/// One declared enum type.
#[derive(Debug, Clone, Default, PartialEq)]
pub struct EnumDescriptorProto {
    pub name: Option<String>,
    pub value: Vec<EnumValueDescriptorProto>,
}

/// The ghost image of a `EnumDescriptorProto`.
pub struct EnumDescriptorProtoModel {
    pub name: Option<Seq<char>>,
    pub value: Seq<EnumValueDescriptorProtoModel>,
}

pub open spec fn enum_descriptor_proto_view(v: EnumDescriptorProto) -> EnumDescriptorProtoModel {
    EnumDescriptorProtoModel {
        name: match v.name { Some(s) => Some(s@), None => None },
        value: Seq::new(v.value@.len(), |i: int| enum_value_descriptor_proto_view(v.value@[i])),
    }
}

pub open spec fn enum_descriptor_proto_init() -> EnumDescriptorProtoModel {
    EnumDescriptorProtoModel {
        name: None,
        value: Seq::empty(),
    }
}

/// The fold of `EnumDescriptorProto` tokens, one per step, last-wins for
/// singular fields and appending for repeated ones.
pub open spec fn spec_parse_enum_descriptor_proto(s: Seq<u8>, acc: EnumDescriptorProtoModel) -> Result<
    EnumDescriptorProtoModel,
    ErrorModel,
>
    decreases s.len(), 0int,
{
    if s.len() == 0 {
        Ok(acc)
    } else {
        match spec_parse_field(s) {
            Err(e) => Err(ErrorModel::DecodeError(e)),
            Ok(((num, fv), n)) => if n < 1 || n > s.len() {
                Err(ErrorModel::DecodeError(DecodeError::Eof))
            } else {
                let step: Result<EnumDescriptorProtoModel, ErrorModel> = match (num, fv) {
                    (1, FieldValueModel::Bytes(b)) => match spec_utf8(b, "name"@) {
                        Ok(cs) => Ok(EnumDescriptorProtoModel { name: Some(cs), ..acc }),
                        Err(e) => Err(e),
                    },
                    (2, FieldValueModel::Bytes(b)) => if b.len() >= s.len() {
                        Err(ErrorModel::DecodeError(DecodeError::Eof))
                    } else {
                        match spec_parse_enum_value_descriptor_proto(b, enum_value_descriptor_proto_init()) {
                            Ok(mm) => Ok(EnumDescriptorProtoModel { value: acc.value.push(mm), ..acc }),
                            Err(e) => Err(e),
                        }
                    },
                    _ => Err(ErrorModel::FieldNotFound(num as int)),
                };
                match step {
                    Ok(acc2) => spec_parse_enum_descriptor_proto(s.skip(n), acc2),
                    Err(e) => Err(e),
                }
            },
        }
    }
}

fn parse_enum_descriptor_proto(b: &Vec<u8>) -> (r: Result<EnumDescriptorProto, Error>)
    ensures
        match r {
            Ok(v) => spec_parse_enum_descriptor_proto(b@, enum_descriptor_proto_init()) == Ok::<EnumDescriptorProtoModel, ErrorModel>(
                enum_descriptor_proto_view(v),
            ),
            Err(e) => spec_parse_enum_descriptor_proto(b@, enum_descriptor_proto_init()) == Err::<EnumDescriptorProtoModel, ErrorModel>(e@),
        },
{
    let mut acc = EnumDescriptorProto {
        name: None,
        value: Vec::new(),
    };
    let mut pos: usize = 0;
    proof {
        assert(b@.skip(0) =~= b@);
        assert(Seq::new(
            acc.value@.len(),
            |i: int| enum_value_descriptor_proto_view(acc.value@[i]),
        ) =~= Seq::<EnumValueDescriptorProtoModel>::empty());
        assert(enum_descriptor_proto_view(acc) == enum_descriptor_proto_init());
    }
    #[verifier::loop_isolation(false)]
    loop
        invariant
            0 <= pos <= b@.len(),
            match spec_parse_enum_descriptor_proto(b@.skip(pos as int), enum_descriptor_proto_view(acc)) {
                Ok(m) => spec_parse_enum_descriptor_proto(b@, enum_descriptor_proto_init()) == Ok::<EnumDescriptorProtoModel, ErrorModel>(m),
                Err(e) => spec_parse_enum_descriptor_proto(b@, enum_descriptor_proto_init()) == Err::<EnumDescriptorProtoModel, ErrorModel>(
                    e,
                ),
            },
        decreases b@.len() - pos,
    {
        let ghost s_here = b@.skip(pos as int);
        let ghost pos_in = pos;
        let ghost acc_in = enum_descriptor_proto_view(acc);
        if pos >= b.len() {
            return Ok(acc);
        }
        let wf = match parse_next(b, &mut pos) {
            Ok(wf) => wf,
            Err(e) => {
                return Err(Error::DecodeError(e));
            },
        };
        let ghost n = pos - pos_in;
        proof {
            crate::de::lemma_parse_field_consumes(s_here);
            assert(b@.skip(pos as int) =~= s_here.skip(n));
        }
        match (wf.num.get(), wf.val) {
            (1, FieldValue::Bytes(pb)) => {
                acc.name = Some(
                    match utf8_field(pb, "name") {
                        Ok(st) => st,
                        Err(e) => {
                            return Err(e);
                        },
                    },
                );
            },
            (2, FieldValue::Bytes(pb)) => {
                proof {
                    lemma_parse_field_bytes_len(s_here);
                }
                let ghost before = Seq::new(acc.value@.len(), |i: int| enum_value_descriptor_proto_view(acc.value@[i]));
                let x = match parse_enum_value_descriptor_proto(&pb) {
                    Ok(x) => x,
                    Err(e) => {
                        return Err(e);
                    },
                };
                let ghost xv = enum_value_descriptor_proto_view(x);
                acc.value.push(x);
                proof {
                    assert(Seq::new(acc.value@.len(), |i: int| enum_value_descriptor_proto_view(acc.value@[i])) =~= before.push(xv));
                }
            },
            (_, _) => {
                return Err(Error::FieldNotFound(wf.num));
            },
        }
    }
}

/// Options carried by one declared field.
#[derive(Debug, Clone, Default, PartialEq)]
pub struct FieldOptions {
    pub packed: Option<bool>,
    pub deprecated: Option<bool>,
}

/// The ghost image of a `FieldOptions`.
pub struct FieldOptionsModel {
    pub packed: Option<bool>,
    pub deprecated: Option<bool>,
}

pub open spec fn field_options_view(v: FieldOptions) -> FieldOptionsModel {
    FieldOptionsModel {
        packed: v.packed,
        deprecated: v.deprecated,
    }
}

pub open spec fn field_options_init() -> FieldOptionsModel {
    FieldOptionsModel {
        packed: None,
        deprecated: None,
    }
}

/// The fold of `FieldOptions` tokens, one per step, last-wins for
/// singular fields and appending for repeated ones.
pub open spec fn spec_parse_field_options(s: Seq<u8>, acc: FieldOptionsModel) -> Result<
    FieldOptionsModel,
    ErrorModel,
>
    decreases s.len(), 0int,
{
    if s.len() == 0 {
        Ok(acc)
    } else {
        match spec_parse_field(s) {
            Err(e) => Err(ErrorModel::DecodeError(e)),
            Ok(((num, fv), n)) => if n < 1 || n > s.len() {
                Err(ErrorModel::DecodeError(DecodeError::Eof))
            } else {
                let step: Result<FieldOptionsModel, ErrorModel> = match (num, fv) {
                    (2, FieldValueModel::Varint(v)) => Ok(FieldOptionsModel { packed: Some(v != 0), ..acc }),
                    (3, FieldValueModel::Varint(v)) => Ok(FieldOptionsModel { deprecated: Some(v != 0), ..acc }),
                    _ => Err(ErrorModel::FieldNotFound(num as int)),
                };
                match step {
                    Ok(acc2) => spec_parse_field_options(s.skip(n), acc2),
                    Err(e) => Err(e),
                }
            },
        }
    }
}

fn parse_field_options(b: &Vec<u8>) -> (r: Result<FieldOptions, Error>)
    ensures
        match r {
            Ok(v) => spec_parse_field_options(b@, field_options_init()) == Ok::<FieldOptionsModel, ErrorModel>(
                field_options_view(v),
            ),
            Err(e) => spec_parse_field_options(b@, field_options_init()) == Err::<FieldOptionsModel, ErrorModel>(e@),
        },
{
    let mut acc = FieldOptions {
        packed: None,
        deprecated: None,
    };
    let mut pos: usize = 0;
    proof {
        assert(b@.skip(0) =~= b@);
        assert(field_options_view(acc) == field_options_init());
    }
    #[verifier::loop_isolation(false)]
    loop
        invariant
            0 <= pos <= b@.len(),
            match spec_parse_field_options(b@.skip(pos as int), field_options_view(acc)) {
                Ok(m) => spec_parse_field_options(b@, field_options_init()) == Ok::<FieldOptionsModel, ErrorModel>(m),
                Err(e) => spec_parse_field_options(b@, field_options_init()) == Err::<FieldOptionsModel, ErrorModel>(
                    e,
                ),
            },
        decreases b@.len() - pos,
    {
        let ghost s_here = b@.skip(pos as int);
        let ghost pos_in = pos;
        let ghost acc_in = field_options_view(acc);
        if pos >= b.len() {
            return Ok(acc);
        }
        let wf = match parse_next(b, &mut pos) {
            Ok(wf) => wf,
            Err(e) => {
                return Err(Error::DecodeError(e));
            },
        };
        let ghost n = pos - pos_in;
        proof {
            crate::de::lemma_parse_field_consumes(s_here);
            assert(b@.skip(pos as int) =~= s_here.skip(n));
        }
        match (wf.num.get(), wf.val) {
            (2, FieldValue::Varint(v)) => {
                acc.packed = Some(v != 0);
            },
            (3, FieldValue::Varint(v)) => {
                acc.deprecated = Some(v != 0);
            },
            (_, _) => {
                return Err(Error::FieldNotFound(wf.num));
            },
        }
    }
}

/// One declared field of a message.
#[derive(Debug, Clone, Default, PartialEq)]
pub struct FieldDescriptorProto {
    pub name: Option<String>,
    pub number: Option<i32>,
    pub label: Option<FieldDescriptorProtoLabel>,
    pub ty: Option<FieldDescriptorProtoType>,
    pub ty_name: Option<String>,
    pub default_value: Option<String>,
    pub options: Option<FieldOptions>,
    pub json_name: Option<String>,
}

/// The ghost image of a `FieldDescriptorProto`.
pub struct FieldDescriptorProtoModel {
    pub name: Option<Seq<char>>,
    pub number: Option<i32>,
    pub label: Option<FieldDescriptorProtoLabel>,
    pub ty: Option<FieldDescriptorProtoType>,
    pub ty_name: Option<Seq<char>>,
    pub default_value: Option<Seq<char>>,
    pub options: Option<FieldOptionsModel>,
    pub json_name: Option<Seq<char>>,
}

pub open spec fn field_descriptor_proto_view(v: FieldDescriptorProto) -> FieldDescriptorProtoModel {
    FieldDescriptorProtoModel {
        name: match v.name { Some(s) => Some(s@), None => None },
        number: v.number,
        label: v.label,
        ty: v.ty,
        ty_name: match v.ty_name { Some(s) => Some(s@), None => None },
        default_value: match v.default_value { Some(s) => Some(s@), None => None },
        options: match v.options { Some(x) => Some(field_options_view(x)), None => None },
        json_name: match v.json_name { Some(s) => Some(s@), None => None },
    }
}

pub open spec fn field_descriptor_proto_init() -> FieldDescriptorProtoModel {
    FieldDescriptorProtoModel {
        name: None,
        number: None,
        label: None,
        ty: None,
        ty_name: None,
        default_value: None,
        options: None,
        json_name: None,
    }
}

/// The fold of `FieldDescriptorProto` tokens, one per step, last-wins for
/// singular fields and appending for repeated ones.
pub open spec fn spec_parse_field_descriptor_proto(s: Seq<u8>, acc: FieldDescriptorProtoModel) -> Result<
    FieldDescriptorProtoModel,
    ErrorModel,
>
    decreases s.len(), 0int,
{
    if s.len() == 0 {
        Ok(acc)
    } else {
        match spec_parse_field(s) {
            Err(e) => Err(ErrorModel::DecodeError(e)),
            Ok(((num, fv), n)) => if n < 1 || n > s.len() {
                Err(ErrorModel::DecodeError(DecodeError::Eof))
            } else {
                let step: Result<FieldDescriptorProtoModel, ErrorModel> = match (num, fv) {
                    (1, FieldValueModel::Bytes(b)) => match spec_utf8(b, "name"@) {
                        Ok(cs) => Ok(FieldDescriptorProtoModel { name: Some(cs), ..acc }),
                        Err(e) => Err(e),
                    },
                    (3, FieldValueModel::Varint(v)) => match spec_varint_i32(v) {
                        Ok(x) => Ok(FieldDescriptorProtoModel { number: Some(x), ..acc }),
                        Err(e) => Err(e),
                    },
                    (4, FieldValueModel::Varint(v)) => match spec_varint_i32(v) {
                        Ok(x) => match FieldDescriptorProtoLabel::spec_new(x) {
                            Some(e2) => Ok(FieldDescriptorProtoModel { label: Some(e2), ..acc }),
                            None => Err(ErrorModel::Message("invalid enum value"@)),
                        },
                        Err(e) => Err(e),
                    },
                    (5, FieldValueModel::Varint(v)) => match spec_varint_i32(v) {
                        Ok(x) => match FieldDescriptorProtoType::spec_new(x) {
                            Some(e2) => Ok(FieldDescriptorProtoModel { ty: Some(e2), ..acc }),
                            None => Err(ErrorModel::Message("invalid enum value"@)),
                        },
                        Err(e) => Err(e),
                    },
                    (6, FieldValueModel::Bytes(b)) => match spec_utf8(b, "ty_name"@) {
                        Ok(cs) => Ok(FieldDescriptorProtoModel { ty_name: Some(cs), ..acc }),
                        Err(e) => Err(e),
                    },
                    (7, FieldValueModel::Bytes(b)) => match spec_utf8(b, "default_value"@) {
                        Ok(cs) => Ok(FieldDescriptorProtoModel { default_value: Some(cs), ..acc }),
                        Err(e) => Err(e),
                    },
                    (8, FieldValueModel::Bytes(b)) => if b.len() >= s.len() {
                        Err(ErrorModel::DecodeError(DecodeError::Eof))
                    } else {
                        match spec_parse_field_options(b, field_options_init()) {
                            Ok(mm) => Ok(FieldDescriptorProtoModel { options: Some(mm), ..acc }),
                            Err(e) => Err(e),
                        }
                    },
                    (10, FieldValueModel::Bytes(b)) => match spec_utf8(b, "json_name"@) {
                        Ok(cs) => Ok(FieldDescriptorProtoModel { json_name: Some(cs), ..acc }),
                        Err(e) => Err(e),
                    },
                    _ => Err(ErrorModel::FieldNotFound(num as int)),
                };
                match step {
                    Ok(acc2) => spec_parse_field_descriptor_proto(s.skip(n), acc2),
                    Err(e) => Err(e),
                }
            },
        }
    }
}

#[verifier::rlimit(100)]
#[verifier::spinoff_prover]
fn parse_field_descriptor_proto(b: &Vec<u8>) -> (r: Result<FieldDescriptorProto, Error>)
    ensures
        match r {
            Ok(v) => spec_parse_field_descriptor_proto(b@, field_descriptor_proto_init()) == Ok::<FieldDescriptorProtoModel, ErrorModel>(
                field_descriptor_proto_view(v),
            ),
            Err(e) => spec_parse_field_descriptor_proto(b@, field_descriptor_proto_init()) == Err::<FieldDescriptorProtoModel, ErrorModel>(e@),
        },
{
    let mut acc = FieldDescriptorProto {
        name: None,
        number: None,
        label: None,
        ty: None,
        ty_name: None,
        default_value: None,
        options: None,
        json_name: None,
    };
    let mut pos: usize = 0;
    proof {
        assert(b@.skip(0) =~= b@);
        assert(field_descriptor_proto_view(acc) == field_descriptor_proto_init());
    }
    #[verifier::loop_isolation(false)]
    loop
        invariant
            0 <= pos <= b@.len(),
            match spec_parse_field_descriptor_proto(b@.skip(pos as int), field_descriptor_proto_view(acc)) {
                Ok(m) => spec_parse_field_descriptor_proto(b@, field_descriptor_proto_init()) == Ok::<FieldDescriptorProtoModel, ErrorModel>(m),
                Err(e) => spec_parse_field_descriptor_proto(b@, field_descriptor_proto_init()) == Err::<FieldDescriptorProtoModel, ErrorModel>(
                    e,
                ),
            },
        decreases b@.len() - pos,
    {
        let ghost s_here = b@.skip(pos as int);
        let ghost pos_in = pos;
        let ghost acc_in = field_descriptor_proto_view(acc);
        if pos >= b.len() {
            return Ok(acc);
        }
        let wf = match parse_next(b, &mut pos) {
            Ok(wf) => wf,
            Err(e) => {
                return Err(Error::DecodeError(e));
            },
        };
        let ghost n = pos - pos_in;
        proof {
            crate::de::lemma_parse_field_consumes(s_here);
            assert(b@.skip(pos as int) =~= s_here.skip(n));
        }
        match (wf.num.get(), wf.val) {
            (1, FieldValue::Bytes(pb)) => {
                acc.name = Some(
                    match utf8_field(pb, "name") {
                        Ok(st) => st,
                        Err(e) => {
                            return Err(e);
                        },
                    },
                );
            },
            (3, FieldValue::Varint(v)) => {
                acc.number = Some(
                    match varint_i32(v) {
                        Ok(x) => x,
                        Err(e) => {
                            return Err(e);
                        },
                    },
                );
            },
            (4, FieldValue::Varint(v)) => {
                let x = match varint_i32(v) {
                    Ok(x) => x,
                    Err(e) => {
                        return Err(e);
                    },
                };
                acc.label = Some(
                    match FieldDescriptorProtoLabel::try_from(x) {
                        Ok(e2) => e2,
                        Err(_) => {
                            return Err(Error::Message("invalid enum value".to_owned()));
                        },
                    },
                );
            },
            (5, FieldValue::Varint(v)) => {
                let x = match varint_i32(v) {
                    Ok(x) => x,
                    Err(e) => {
                        return Err(e);
                    },
                };
                acc.ty = Some(
                    match FieldDescriptorProtoType::try_from(x) {
                        Ok(e2) => e2,
                        Err(_) => {
                            return Err(Error::Message("invalid enum value".to_owned()));
                        },
                    },
                );
            },
            (6, FieldValue::Bytes(pb)) => {
                acc.ty_name = Some(
                    match utf8_field(pb, "ty_name") {
                        Ok(st) => st,
                        Err(e) => {
                            return Err(e);
                        },
                    },
                );
            },
            (7, FieldValue::Bytes(pb)) => {
                acc.default_value = Some(
                    match utf8_field(pb, "default_value") {
                        Ok(st) => st,
                        Err(e) => {
                            return Err(e);
                        },
                    },
                );
            },
            (8, FieldValue::Bytes(pb)) => {
                proof {
                    lemma_parse_field_bytes_len(s_here);
                }
                acc.options = Some(
                    match parse_field_options(&pb) {
                        Ok(x) => x,
                        Err(e) => {
                            return Err(e);
                        },
                    },
                );
            },
            (10, FieldValue::Bytes(pb)) => {
                acc.json_name = Some(
                    match utf8_field(pb, "json_name") {
                        Ok(st) => st,
                        Err(e) => {
                            return Err(e);
                        },
                    },
                );
            },
            (_, _) => {
                return Err(Error::FieldNotFound(wf.num));
            },
        }
    }
}

/// One declared message type, nested declarations included.
#[derive(Debug, PartialEq)]
pub struct DescriptorProto {
    pub name: Option<String>,
    pub field: Vec<FieldDescriptorProto>,
    pub nested_type: Vec<DescriptorProto>,
    pub enum_type: Vec<EnumDescriptorProto>,
    pub extension_range: Vec<DescriptorProtoExtensionRange>,
    pub reserved_range: Vec<DescriptorProtoReservedRange>,
}

/// The ghost image of a `DescriptorProto`.
pub struct DescriptorProtoModel {
    pub name: Option<Seq<char>>,
    pub field: Seq<FieldDescriptorProtoModel>,
    pub nested_type: Seq<DescriptorProtoModel>,
    pub enum_type: Seq<EnumDescriptorProtoModel>,
    pub extension_range: Seq<DescriptorProtoExtensionRangeModel>,
    pub reserved_range: Seq<DescriptorProtoReservedRangeModel>,
}

pub open spec fn descriptor_proto_view(v: DescriptorProto) -> DescriptorProtoModel
    decreases v, {
    DescriptorProtoModel {
        name: match v.name { Some(s) => Some(s@), None => None },
        field: Seq::new(v.field@.len(), |i: int| field_descriptor_proto_view(v.field@[i])),
        nested_type: dps_view(v.nested_type@),
        enum_type: Seq::new(v.enum_type@.len(), |i: int| enum_descriptor_proto_view(v.enum_type@[i])),
        extension_range: Seq::new(v.extension_range@.len(), |i: int| descriptor_proto_extension_range_view(v.extension_range@[i])),
        reserved_range: Seq::new(v.reserved_range@.len(), |i: int| descriptor_proto_reserved_range_view(v.reserved_range@[i])),
    }
}

pub open spec fn descriptor_proto_init() -> DescriptorProtoModel {
    DescriptorProtoModel {
        name: None,
        field: Seq::empty(),
        nested_type: Seq::empty(),
        enum_type: Seq::empty(),
        extension_range: Seq::empty(),
        reserved_range: Seq::empty(),
    }
}

/// The fold of `DescriptorProto` tokens, one per step, last-wins for
/// singular fields and appending for repeated ones.
pub open spec fn spec_parse_descriptor_proto(s: Seq<u8>, acc: DescriptorProtoModel) -> Result<
    DescriptorProtoModel,
    ErrorModel,
>
    decreases s.len(), 1int,
{
    if s.len() == 0 {
        Ok(acc)
    } else {
        match spec_parse_field(s) {
            Err(e) => Err(ErrorModel::DecodeError(e)),
            Ok(((num, fv), n)) => if n < 1 || n > s.len() {
                Err(ErrorModel::DecodeError(DecodeError::Eof))
            } else {
                let step: Result<DescriptorProtoModel, ErrorModel> = match (num, fv) {
                    (1, FieldValueModel::Bytes(b)) => match spec_utf8(b, "name"@) {
                        Ok(cs) => Ok(DescriptorProtoModel { name: Some(cs), ..acc }),
                        Err(e) => Err(e),
                    },
                    (2, FieldValueModel::Bytes(b)) => if b.len() >= s.len() {
                        Err(ErrorModel::DecodeError(DecodeError::Eof))
                    } else {
                        match spec_parse_field_descriptor_proto(b, field_descriptor_proto_init()) {
                            Ok(mm) => Ok(DescriptorProtoModel { field: acc.field.push(mm), ..acc }),
                            Err(e) => Err(e),
                        }
                    },
                    (3, FieldValueModel::Bytes(b)) => if b.len() >= s.len() {
                        Err(ErrorModel::DecodeError(DecodeError::Eof))
                    } else {
                        match spec_parse_descriptor_proto(b, descriptor_proto_init()) {
                            Ok(mm) => Ok(DescriptorProtoModel { nested_type: acc.nested_type.push(mm), ..acc }),
                            Err(e) => Err(e),
                        }
                    },
                    (4, FieldValueModel::Bytes(b)) => if b.len() >= s.len() {
                        Err(ErrorModel::DecodeError(DecodeError::Eof))
                    } else {
                        match spec_parse_enum_descriptor_proto(b, enum_descriptor_proto_init()) {
                            Ok(mm) => Ok(DescriptorProtoModel { enum_type: acc.enum_type.push(mm), ..acc }),
                            Err(e) => Err(e),
                        }
                    },
                    (5, FieldValueModel::Bytes(b)) => if b.len() >= s.len() {
                        Err(ErrorModel::DecodeError(DecodeError::Eof))
                    } else {
                        match spec_parse_descriptor_proto_extension_range(b, descriptor_proto_extension_range_init()) {
                            Ok(mm) => Ok(DescriptorProtoModel { extension_range: acc.extension_range.push(mm), ..acc }),
                            Err(e) => Err(e),
                        }
                    },
                    (9, FieldValueModel::Bytes(b)) => if b.len() >= s.len() {
                        Err(ErrorModel::DecodeError(DecodeError::Eof))
                    } else {
                        match spec_parse_descriptor_proto_reserved_range(b, descriptor_proto_reserved_range_init()) {
                            Ok(mm) => Ok(DescriptorProtoModel { reserved_range: acc.reserved_range.push(mm), ..acc }),
                            Err(e) => Err(e),
                        }
                    },
                    _ => Err(ErrorModel::FieldNotFound(num as int)),
                };
                match step {
                    Ok(acc2) => spec_parse_descriptor_proto(s.skip(n), acc2),
                    Err(e) => Err(e),
                }
            },
        }
    }
}

#[verifier::rlimit(100)]
#[verifier::spinoff_prover]
fn parse_descriptor_proto(b: &Vec<u8>) -> (r: Result<DescriptorProto, Error>)
    ensures
        match r {
            Ok(v) => spec_parse_descriptor_proto(b@, descriptor_proto_init()) == Ok::<DescriptorProtoModel, ErrorModel>(
                descriptor_proto_view(v),
            ),
            Err(e) => spec_parse_descriptor_proto(b@, descriptor_proto_init()) == Err::<DescriptorProtoModel, ErrorModel>(e@),
        },
    decreases b@.len(),
{
    let mut acc = DescriptorProto {
        name: None,
        field: Vec::new(),
        nested_type: Vec::new(),
        enum_type: Vec::new(),
        extension_range: Vec::new(),
        reserved_range: Vec::new(),
    };
    let mut pos: usize = 0;
    proof {
        assert(b@.skip(0) =~= b@);
        assert(Seq::new(
            acc.field@.len(),
            |i: int| field_descriptor_proto_view(acc.field@[i]),
        ) =~= Seq::<FieldDescriptorProtoModel>::empty());
        assert(Seq::new(
            acc.enum_type@.len(),
            |i: int| enum_descriptor_proto_view(acc.enum_type@[i]),
        ) =~= Seq::<EnumDescriptorProtoModel>::empty());
        assert(Seq::new(
            acc.extension_range@.len(),
            |i: int| descriptor_proto_extension_range_view(acc.extension_range@[i]),
        ) =~= Seq::<DescriptorProtoExtensionRangeModel>::empty());
        assert(Seq::new(
            acc.reserved_range@.len(),
            |i: int| descriptor_proto_reserved_range_view(acc.reserved_range@[i]),
        ) =~= Seq::<DescriptorProtoReservedRangeModel>::empty());
        assert(descriptor_proto_view(acc) == descriptor_proto_init());
    }
    #[verifier::loop_isolation(false)]
    loop
        invariant
            0 <= pos <= b@.len(),
            match spec_parse_descriptor_proto(b@.skip(pos as int), descriptor_proto_view(acc)) {
                Ok(m) => spec_parse_descriptor_proto(b@, descriptor_proto_init()) == Ok::<DescriptorProtoModel, ErrorModel>(m),
                Err(e) => spec_parse_descriptor_proto(b@, descriptor_proto_init()) == Err::<DescriptorProtoModel, ErrorModel>(
                    e,
                ),
            },
        decreases b@.len() - pos,
    {
        let ghost s_here = b@.skip(pos as int);
        let ghost pos_in = pos;
        let ghost acc_in = descriptor_proto_view(acc);
        if pos >= b.len() {
            return Ok(acc);
        }
        let wf = match parse_next(b, &mut pos) {
            Ok(wf) => wf,
            Err(e) => {
                return Err(Error::DecodeError(e));
            },
        };
        let ghost n = pos - pos_in;
        proof {
            crate::de::lemma_parse_field_consumes(s_here);
            assert(b@.skip(pos as int) =~= s_here.skip(n));
        }
        match (wf.num.get(), wf.val) {
            (1, FieldValue::Bytes(pb)) => {
                acc.name = Some(
                    match utf8_field(pb, "name") {
                        Ok(st) => st,
                        Err(e) => {
                            return Err(e);
                        },
                    },
                );
            },
            (2, FieldValue::Bytes(pb)) => {
                proof {
                    lemma_parse_field_bytes_len(s_here);
                }
                let ghost before = Seq::new(acc.field@.len(), |i: int| field_descriptor_proto_view(acc.field@[i]));
                let x = match parse_field_descriptor_proto(&pb) {
                    Ok(x) => x,
                    Err(e) => {
                        return Err(e);
                    },
                };
                let ghost xv = field_descriptor_proto_view(x);
                acc.field.push(x);
                proof {
                    assert(Seq::new(acc.field@.len(), |i: int| field_descriptor_proto_view(acc.field@[i])) =~= before.push(xv));
                }
            },
            (3, FieldValue::Bytes(pb)) => {
                proof {
                    lemma_parse_field_bytes_len(s_here);
                }
                let ghost before = dps_view(acc.nested_type@);
                let x = match parse_descriptor_proto(&pb) {
                    Ok(x) => x,
                    Err(e) => {
                        return Err(e);
                    },
                };
                let ghost xv = descriptor_proto_view(x);
                let ghost nseq = acc.nested_type@;
                acc.nested_type.push(x);
                proof {
                    lemma_dps_view_push(nseq, x);
                    assert(dps_view(acc.nested_type@) =~= before.push(xv));
                }
            },
            (4, FieldValue::Bytes(pb)) => {
                proof {
                    lemma_parse_field_bytes_len(s_here);
                }
                let ghost before = Seq::new(acc.enum_type@.len(), |i: int| enum_descriptor_proto_view(acc.enum_type@[i]));
                let x = match parse_enum_descriptor_proto(&pb) {
                    Ok(x) => x,
                    Err(e) => {
                        return Err(e);
                    },
                };
                let ghost xv = enum_descriptor_proto_view(x);
                acc.enum_type.push(x);
                proof {
                    assert(Seq::new(acc.enum_type@.len(), |i: int| enum_descriptor_proto_view(acc.enum_type@[i])) =~= before.push(xv));
                }
            },
            (5, FieldValue::Bytes(pb)) => {
                proof {
                    lemma_parse_field_bytes_len(s_here);
                }
                let ghost before = Seq::new(acc.extension_range@.len(), |i: int| descriptor_proto_extension_range_view(acc.extension_range@[i]));
                let x = match parse_descriptor_proto_extension_range(&pb) {
                    Ok(x) => x,
                    Err(e) => {
                        return Err(e);
                    },
                };
                let ghost xv = descriptor_proto_extension_range_view(x);
                acc.extension_range.push(x);
                proof {
                    assert(Seq::new(acc.extension_range@.len(), |i: int| descriptor_proto_extension_range_view(acc.extension_range@[i])) =~= before.push(xv));
                }
            },
            (9, FieldValue::Bytes(pb)) => {
                proof {
                    lemma_parse_field_bytes_len(s_here);
                }
                let ghost before = Seq::new(acc.reserved_range@.len(), |i: int| descriptor_proto_reserved_range_view(acc.reserved_range@[i]));
                let x = match parse_descriptor_proto_reserved_range(&pb) {
                    Ok(x) => x,
                    Err(e) => {
                        return Err(e);
                    },
                };
                let ghost xv = descriptor_proto_reserved_range_view(x);
                acc.reserved_range.push(x);
                proof {
                    assert(Seq::new(acc.reserved_range@.len(), |i: int| descriptor_proto_reserved_range_view(acc.reserved_range@[i])) =~= before.push(xv));
                }
            },
            (_, _) => {
                return Err(Error::FieldNotFound(wf.num));
            },
        }
    }
}

/// The ghost image of a sequence of message declarations, elementwise.
pub open spec fn dps_view(s: Seq<DescriptorProto>) -> Seq<DescriptorProtoModel>
    decreases s,
{
    if s.len() == 0 {
        Seq::empty()
    } else {
        seq![descriptor_proto_view(s[0])] + dps_view(s.drop_first())
    }
}

/// Elementwise reading of `dps_view`.
pub proof fn lemma_dps_view_index(s: Seq<DescriptorProto>)
    ensures
        dps_view(s).len() == s.len(),
        forall|i: int|
            0 <= i < s.len() ==> dps_view(s)[i] == descriptor_proto_view(#[trigger] s[i]),
    decreases s,
{
    if s.len() > 0 {
        lemma_dps_view_index(s.drop_first());
        assert forall|i: int| 0 <= i < s.len() implies dps_view(s)[i] == descriptor_proto_view(
            s[i],
        ) by {
            if i > 0 {
                assert(s.drop_first()[i - 1] == s[i]);
                assert(dps_view(s)[i] == dps_view(s.drop_first())[i - 1]);
            }
        }
    }
}

/// Pushing a declaration commutes with taking views.
pub proof fn lemma_dps_view_push(s: Seq<DescriptorProto>, v: DescriptorProto)
    ensures
        dps_view(s.push(v)) == dps_view(s).push(descriptor_proto_view(v)),
{
    lemma_dps_view_index(s);
    lemma_dps_view_index(s.push(v));
    assert forall|j: int| 0 <= j < dps_view(s.push(v)).len() implies dps_view(s.push(v))[j]
        == dps_view(s).push(descriptor_proto_view(v))[j] by {
        assert(dps_view(s.push(v))[j] == descriptor_proto_view(s.push(v)[j]));
        if j < s.len() {
            assert(s.push(v)[j] == s[j]);
            assert(dps_view(s)[j] == descriptor_proto_view(s[j]));
        } else {
            assert(s.push(v)[j] == v);
        }
    }
    assert(dps_view(s.push(v)) =~= dps_view(s).push(descriptor_proto_view(v)));
}

/// One parsed source file of the request.
#[derive(Debug, PartialEq)]
pub struct FileDescriptorProto {
    pub name: Option<String>,
    pub package: Option<String>,
    pub dependency: Vec<String>,
    pub message_type: Vec<DescriptorProto>,
    pub options: Option<FileOptions>,
    pub source_code_info: Option<SourceCodeInfo>,
}

/// The ghost image of a `FileDescriptorProto`.
pub struct FileDescriptorProtoModel {
    pub name: Option<Seq<char>>,
    pub package: Option<Seq<char>>,
    pub dependency: Seq<Seq<char>>,
    pub message_type: Seq<DescriptorProtoModel>,
    pub options: Option<FileOptionsModel>,
    pub source_code_info: Option<SourceCodeInfoModel>,
}

pub open spec fn file_descriptor_proto_view(v: FileDescriptorProto) -> FileDescriptorProtoModel {
    FileDescriptorProtoModel {
        name: match v.name { Some(s) => Some(s@), None => None },
        package: match v.package { Some(s) => Some(s@), None => None },
        dependency: strings_view(v.dependency@),
        message_type: dps_view(v.message_type@),
        options: match v.options { Some(x) => Some(file_options_view(x)), None => None },
        source_code_info: match v.source_code_info { Some(x) => Some(source_code_info_view(x)), None => None },
    }
}

pub open spec fn file_descriptor_proto_init() -> FileDescriptorProtoModel {
    FileDescriptorProtoModel {
        name: None,
        package: None,
        dependency: Seq::empty(),
        message_type: Seq::empty(),
        options: None,
        source_code_info: None,
    }
}

/// The fold of `FileDescriptorProto` tokens, one per step, last-wins for
/// singular fields and appending for repeated ones.
pub open spec fn spec_parse_file_descriptor_proto(s: Seq<u8>, acc: FileDescriptorProtoModel) -> Result<
    FileDescriptorProtoModel,
    ErrorModel,
>
    decreases s.len(), 0int,
{
    if s.len() == 0 {
        Ok(acc)
    } else {
        match spec_parse_field(s) {
            Err(e) => Err(ErrorModel::DecodeError(e)),
            Ok(((num, fv), n)) => if n < 1 || n > s.len() {
                Err(ErrorModel::DecodeError(DecodeError::Eof))
            } else {
                let step: Result<FileDescriptorProtoModel, ErrorModel> = match (num, fv) {
                    (1, FieldValueModel::Bytes(b)) => match spec_utf8(b, "name"@) {
                        Ok(cs) => Ok(FileDescriptorProtoModel { name: Some(cs), ..acc }),
                        Err(e) => Err(e),
                    },
                    (2, FieldValueModel::Bytes(b)) => match spec_utf8(b, "package"@) {
                        Ok(cs) => Ok(FileDescriptorProtoModel { package: Some(cs), ..acc }),
                        Err(e) => Err(e),
                    },
                    (3, FieldValueModel::Bytes(b)) => match spec_utf8(b, "dependency"@) {
                        Ok(cs) => Ok(FileDescriptorProtoModel { dependency: acc.dependency.push(cs), ..acc }),
                        Err(e) => Err(e),
                    },
                    (4, FieldValueModel::Bytes(b)) => if b.len() >= s.len() {
                        Err(ErrorModel::DecodeError(DecodeError::Eof))
                    } else {
                        match spec_parse_descriptor_proto(b, descriptor_proto_init()) {
                            Ok(mm) => Ok(FileDescriptorProtoModel { message_type: acc.message_type.push(mm), ..acc }),
                            Err(e) => Err(e),
                        }
                    },
                    (8, FieldValueModel::Bytes(b)) => if b.len() >= s.len() {
                        Err(ErrorModel::DecodeError(DecodeError::Eof))
                    } else {
                        match spec_parse_file_options(b, file_options_init()) {
                            Ok(mm) => Ok(FileDescriptorProtoModel { options: Some(mm), ..acc }),
                            Err(e) => Err(e),
                        }
                    },
                    (9, FieldValueModel::Bytes(b)) => if b.len() >= s.len() {
                        Err(ErrorModel::DecodeError(DecodeError::Eof))
                    } else {
                        match spec_parse_source_code_info(b, source_code_info_init()) {
                            Ok(mm) => Ok(FileDescriptorProtoModel { source_code_info: Some(mm), ..acc }),
                            Err(e) => Err(e),
                        }
                    },
                    _ => Err(ErrorModel::FieldNotFound(num as int)),
                };
                match step {
                    Ok(acc2) => spec_parse_file_descriptor_proto(s.skip(n), acc2),
                    Err(e) => Err(e),
                }
            },
        }
    }
}

#[verifier::rlimit(100)]
#[verifier::spinoff_prover]
fn parse_file_descriptor_proto(b: &Vec<u8>) -> (r: Result<FileDescriptorProto, Error>)
    ensures
        match r {
            Ok(v) => spec_parse_file_descriptor_proto(b@, file_descriptor_proto_init()) == Ok::<FileDescriptorProtoModel, ErrorModel>(
                file_descriptor_proto_view(v),
            ),
            Err(e) => spec_parse_file_descriptor_proto(b@, file_descriptor_proto_init()) == Err::<FileDescriptorProtoModel, ErrorModel>(e@),
        },
{
    let mut acc = FileDescriptorProto {
        name: None,
        package: None,
        dependency: Vec::new(),
        message_type: Vec::new(),
        options: None,
        source_code_info: None,
    };
    let mut pos: usize = 0;
    proof {
        assert(b@.skip(0) =~= b@);
        assert(strings_view(acc.dependency@) =~= Seq::<Seq<char>>::empty());
        assert(file_descriptor_proto_view(acc) == file_descriptor_proto_init());
    }
    #[verifier::loop_isolation(false)]
    loop
        invariant
            0 <= pos <= b@.len(),
            match spec_parse_file_descriptor_proto(b@.skip(pos as int), file_descriptor_proto_view(acc)) {
                Ok(m) => spec_parse_file_descriptor_proto(b@, file_descriptor_proto_init()) == Ok::<FileDescriptorProtoModel, ErrorModel>(m),
                Err(e) => spec_parse_file_descriptor_proto(b@, file_descriptor_proto_init()) == Err::<FileDescriptorProtoModel, ErrorModel>(
                    e,
                ),
            },
        decreases b@.len() - pos,
    {
        let ghost s_here = b@.skip(pos as int);
        let ghost pos_in = pos;
        let ghost acc_in = file_descriptor_proto_view(acc);
        if pos >= b.len() {
            return Ok(acc);
        }
        let wf = match parse_next(b, &mut pos) {
            Ok(wf) => wf,
            Err(e) => {
                return Err(Error::DecodeError(e));
            },
        };
        let ghost n = pos - pos_in;
        proof {
            crate::de::lemma_parse_field_consumes(s_here);
            assert(b@.skip(pos as int) =~= s_here.skip(n));
        }
        match (wf.num.get(), wf.val) {
            (1, FieldValue::Bytes(pb)) => {
                acc.name = Some(
                    match utf8_field(pb, "name") {
                        Ok(st) => st,
                        Err(e) => {
                            return Err(e);
                        },
                    },
                );
            },
            (2, FieldValue::Bytes(pb)) => {
                acc.package = Some(
                    match utf8_field(pb, "package") {
                        Ok(st) => st,
                        Err(e) => {
                            return Err(e);
                        },
                    },
                );
            },
            (3, FieldValue::Bytes(pb)) => {
                let ghost before = strings_view(acc.dependency@);
                let st = match utf8_field(pb, "dependency") {
                    Ok(st) => st,
                    Err(e) => {
                        return Err(e);
                    },
                };
                let ghost stv = st@;
                acc.dependency.push(st);
                proof {
                    assert(strings_view(acc.dependency@) =~= before.push(stv));
                }
            },
            (4, FieldValue::Bytes(pb)) => {
                proof {
                    lemma_parse_field_bytes_len(s_here);
                }
                let ghost before = dps_view(acc.message_type@);
                let x = match parse_descriptor_proto(&pb) {
                    Ok(x) => x,
                    Err(e) => {
                        return Err(e);
                    },
                };
                let ghost xv = descriptor_proto_view(x);
                let ghost nseq = acc.message_type@;
                acc.message_type.push(x);
                proof {
                    lemma_dps_view_push(nseq, x);
                    assert(dps_view(acc.message_type@) =~= before.push(xv));
                }
            },
            (8, FieldValue::Bytes(pb)) => {
                proof {
                    lemma_parse_field_bytes_len(s_here);
                }
                acc.options = Some(
                    match parse_file_options(&pb) {
                        Ok(x) => x,
                        Err(e) => {
                            return Err(e);
                        },
                    },
                );
            },
            (9, FieldValue::Bytes(pb)) => {
                proof {
                    lemma_parse_field_bytes_len(s_here);
                }
                acc.source_code_info = Some(
                    match parse_source_code_info(&pb) {
                        Ok(x) => x,
                        Err(e) => {
                            return Err(e);
                        },
                    },
                );
            },
            (_, _) => {
                return Err(Error::FieldNotFound(wf.num));
            },
        }
    }
}
/// The whole request a compiler hands a plugin on its input.
#[derive(Debug, PartialEq)]
pub struct CodeGeneratorRequest {
    pub file_to_generate: Vec<String>,
    pub compiler_version: Option<Version>,
    pub proto_file: Vec<FileDescriptorProto>,
    pub parameter: Option<String>,
}

/// The ghost image of a `CodeGeneratorRequest`.
pub struct CodeGeneratorRequestModel {
    pub file_to_generate: Seq<Seq<char>>,
    pub compiler_version: Option<VersionModel>,
    pub proto_file: Seq<FileDescriptorProtoModel>,
    pub parameter: Option<Seq<char>>,
}

pub open spec fn code_generator_request_view(v: CodeGeneratorRequest) -> CodeGeneratorRequestModel {
    CodeGeneratorRequestModel {
        file_to_generate: strings_view(v.file_to_generate@),
        compiler_version: match v.compiler_version { Some(x) => Some(version_view(x)), None => None },
        proto_file: Seq::new(v.proto_file@.len(), |i: int| file_descriptor_proto_view(v.proto_file@[i])),
        parameter: match v.parameter { Some(s) => Some(s@), None => None },
    }
}

pub open spec fn code_generator_request_init() -> CodeGeneratorRequestModel {
    CodeGeneratorRequestModel {
        file_to_generate: Seq::empty(),
        compiler_version: None,
        proto_file: Seq::empty(),
        parameter: None,
    }
}

/// The fold of `CodeGeneratorRequest` tokens, one per step, last-wins for
/// singular fields and appending for repeated ones.
pub open spec fn spec_parse_code_generator_request(s: Seq<u8>, acc: CodeGeneratorRequestModel) -> Result<
    CodeGeneratorRequestModel,
    ErrorModel,
>
    decreases s.len(), 0int,
{
    if s.len() == 0 {
        Ok(acc)
    } else {
        match spec_parse_field(s) {
            Err(e) => Err(ErrorModel::DecodeError(e)),
            Ok(((num, fv), n)) => if n < 1 || n > s.len() {
                Err(ErrorModel::DecodeError(DecodeError::Eof))
            } else {
                let step: Result<CodeGeneratorRequestModel, ErrorModel> = match (num, fv) {
                    (1, FieldValueModel::Bytes(b)) => match spec_utf8(b, "file_to_generate"@) {
                        Ok(cs) => Ok(CodeGeneratorRequestModel { file_to_generate: acc.file_to_generate.push(cs), ..acc }),
                        Err(e) => Err(e),
                    },
                    (3, FieldValueModel::Bytes(b)) => if b.len() >= s.len() {
                        Err(ErrorModel::DecodeError(DecodeError::Eof))
                    } else {
                        match spec_parse_version(b, version_init()) {
                            Ok(mm) => Ok(CodeGeneratorRequestModel { compiler_version: Some(mm), ..acc }),
                            Err(e) => Err(e),
                        }
                    },
                    (15, FieldValueModel::Bytes(b)) => if b.len() >= s.len() {
                        Err(ErrorModel::DecodeError(DecodeError::Eof))
                    } else {
                        match spec_parse_file_descriptor_proto(b, file_descriptor_proto_init()) {
                            Ok(mm) => Ok(CodeGeneratorRequestModel { proto_file: acc.proto_file.push(mm), ..acc }),
                            Err(e) => Err(e),
                        }
                    },
                    _ => Err(ErrorModel::FieldNotFound(num as int)),
                };
                match step {
                    Ok(acc2) => spec_parse_code_generator_request(s.skip(n), acc2),
                    Err(e) => Err(e),
                }
            },
        }
    }
}

#[verifier::rlimit(100)]
#[verifier::spinoff_prover]
pub fn parse_request(b: &Vec<u8>) -> (r: Result<CodeGeneratorRequest, Error>)
    ensures
        match r {
            Ok(v) => spec_parse_code_generator_request(b@, code_generator_request_init()) == Ok::<CodeGeneratorRequestModel, ErrorModel>(
                code_generator_request_view(v),
            ),
            Err(e) => spec_parse_code_generator_request(b@, code_generator_request_init()) == Err::<CodeGeneratorRequestModel, ErrorModel>(e@),
        },
{
    let mut acc = CodeGeneratorRequest {
        file_to_generate: Vec::new(),
        compiler_version: None,
        proto_file: Vec::new(),
        parameter: None,
    };
    let mut pos: usize = 0;
    proof {
        assert(b@.skip(0) =~= b@);
        assert(strings_view(acc.file_to_generate@) =~= Seq::<Seq<char>>::empty());
        assert(Seq::new(
            acc.proto_file@.len(),
            |i: int| file_descriptor_proto_view(acc.proto_file@[i]),
        ) =~= Seq::<FileDescriptorProtoModel>::empty());
        assert(code_generator_request_view(acc) == code_generator_request_init());
    }
    #[verifier::loop_isolation(false)]
    loop
        invariant
            0 <= pos <= b@.len(),
            match spec_parse_code_generator_request(b@.skip(pos as int), code_generator_request_view(acc)) {
                Ok(m) => spec_parse_code_generator_request(b@, code_generator_request_init()) == Ok::<CodeGeneratorRequestModel, ErrorModel>(m),
                Err(e) => spec_parse_code_generator_request(b@, code_generator_request_init()) == Err::<CodeGeneratorRequestModel, ErrorModel>(
                    e,
                ),
            },
        decreases b@.len() - pos,
    {
        let ghost s_here = b@.skip(pos as int);
        let ghost pos_in = pos;
        let ghost acc_in = code_generator_request_view(acc);
        if pos >= b.len() {
            return Ok(acc);
        }
        let wf = match parse_next(b, &mut pos) {
            Ok(wf) => wf,
            Err(e) => {
                return Err(Error::DecodeError(e));
            },
        };
        let ghost n = pos - pos_in;
        proof {
            crate::de::lemma_parse_field_consumes(s_here);
            assert(b@.skip(pos as int) =~= s_here.skip(n));
        }
        match (wf.num.get(), wf.val) {
            (1, FieldValue::Bytes(pb)) => {
                let ghost before = strings_view(acc.file_to_generate@);
                let st = match utf8_field(pb, "file_to_generate") {
                    Ok(st) => st,
                    Err(e) => {
                        return Err(e);
                    },
                };
                let ghost stv = st@;
                acc.file_to_generate.push(st);
                proof {
                    assert(strings_view(acc.file_to_generate@) =~= before.push(stv));
                }
            },
            (3, FieldValue::Bytes(pb)) => {
                proof {
                    lemma_parse_field_bytes_len(s_here);
                }
                acc.compiler_version = Some(
                    match parse_version(&pb) {
                        Ok(x) => x,
                        Err(e) => {
                            return Err(e);
                        },
                    },
                );
            },
            (15, FieldValue::Bytes(pb)) => {
                proof {
                    lemma_parse_field_bytes_len(s_here);
                }
                let ghost before = Seq::new(acc.proto_file@.len(), |i: int| file_descriptor_proto_view(acc.proto_file@[i]));
                let x = match parse_file_descriptor_proto(&pb) {
                    Ok(x) => x,
                    Err(e) => {
                        return Err(e);
                    },
                };
                let ghost xv = file_descriptor_proto_view(x);
                acc.proto_file.push(x);
                proof {
                    assert(Seq::new(acc.proto_file@.len(), |i: int| file_descriptor_proto_view(acc.proto_file@[i])) =~= before.push(xv));
                }
            },
            (_, _) => {
                return Err(Error::FieldNotFound(wf.num));
            },
        }
    }
}

} // verus!
