use vstd::prelude::*;
use vstd::utf8::{valid_utf8, decode_utf8};
use crate::error::{Error, ErrorModel};
use crate::info::{Cardinality, FieldInfo, MessageInfo, Syntax, Type, wf_field_info,
    wf_message_info};
use crate::value::{Value, ValueModel, values_view, pairs_view, lemma_values_view_index,
    lemma_pairs_view_index};
use crate::error::DecodeError;
use crate::wire::{WireType, FieldValue, FieldValueModel, spec_parse_field, spec_parse_varint,
    spec_parse_fixed32, spec_parse_fixed64, parse_next, parse_varint, parse_fixed32, parse_fixed64,
    decode_zig_zag, spec_zig_zag_dec};
use crate::ser::{spec_is_map_field, RECURSION_LIMIT};

verus! {

/// The value a field holds before any of its occurrences arrive: an
/// empty container for a repeated or map field, absence otherwise.
pub open spec fn spec_init_value(f: FieldInfo) -> ValueModel {
    if f.cardinality == Cardinality::Repeated {
        if spec_is_map_field(f) {
            ValueModel::Dict(Seq::empty())
        } else {
            ValueModel::List(Seq::empty())
        }
    } else {
        ValueModel::Unset
    }
}

/// The initial slot of every field of a message.
pub open spec fn spec_init_values(m: MessageInfo) -> Seq<ValueModel> {
    Seq::new(m.fields@.len(), |i: int| spec_init_value(m.fields@[i]))
}

/// The index of the field declared with number `num`, searching from `i`;
/// `-1` when the descriptor does not declare it.
pub open spec fn spec_field_lookup(m: MessageInfo, num: int, i: int) -> int
    decreases m.fields@.len() - i,
{
    if i < 0 || i >= m.fields@.len() {
        -1
    } else if m.fields@[i].number.spec_get() == num {
        i
    } else {
        spec_field_lookup(m, num, i + 1)
    }
}

/// The wire type a parsed token travels as.
pub open spec fn spec_fv_wire_type(fv: FieldValueModel) -> WireType {
    match fv {
        FieldValueModel::Varint(_) => WireType::Varint,
        FieldValueModel::Fixed32(_) => WireType::Fixed32,
        FieldValueModel::Fixed64(_) => WireType::Fixed64,
        FieldValueModel::Bytes(_) => WireType::Bytes,
        FieldValueModel::StartGroup => WireType::StartGroup,
        FieldValueModel::EndGroup => WireType::EndGroup,
    }
}

/// The structured value one scalar token denotes under a logical type.
/// Varints truncate to 32 bits where the type asks for them; zig-zag
/// types uninterleave first; a string must hold valid UTF-8.
pub open spec fn spec_value_of_scalar(ty: Type, fv: FieldValueModel, name: Seq<char>) -> Result<
    ValueModel,
    ErrorModel,
> {
    match (ty, fv) {
        (Type::Int32, FieldValueModel::Varint(v)) => Ok(ValueModel::I32(v as i32)),
        (Type::Int64, FieldValueModel::Varint(v)) => Ok(ValueModel::I64(v as i64)),
        (Type::Uint32, FieldValueModel::Varint(v)) => Ok(ValueModel::U32(v as u32)),
        (Type::Uint64, FieldValueModel::Varint(v)) => Ok(ValueModel::U64(v)),
        (Type::SInt32, FieldValueModel::Varint(v)) => Ok(
            ValueModel::I32(spec_zig_zag_dec(v) as i32),
        ),
        (Type::SInt64, FieldValueModel::Varint(v)) => Ok(ValueModel::I64(spec_zig_zag_dec(v))),
        (Type::Bool, FieldValueModel::Varint(v)) => Ok(ValueModel::Bool(v != 0)),
        (Type::Enum, FieldValueModel::Varint(v)) => Ok(ValueModel::Enum(v as i32)),
        (Type::Fixed32, FieldValueModel::Fixed32(x)) => Ok(ValueModel::U32(x)),
        (Type::SFixed32, FieldValueModel::Fixed32(x)) => Ok(ValueModel::I32(x as i32)),
        (Type::Float, FieldValueModel::Fixed32(x)) => Ok(ValueModel::F32(x)),
        (Type::Fixed64, FieldValueModel::Fixed64(x)) => Ok(ValueModel::U64(x)),
        (Type::SFixed64, FieldValueModel::Fixed64(x)) => Ok(ValueModel::I64(x as i64)),
        (Type::Double, FieldValueModel::Fixed64(x)) => Ok(ValueModel::F64(x)),
        (Type::String, FieldValueModel::Bytes(b)) => if valid_utf8(b) {
            Ok(ValueModel::String(decode_utf8(b)))
        } else {
            Err(ErrorModel::InvalidUTF8(name))
        },
        (Type::Bytes, FieldValueModel::Bytes(b)) => Ok(ValueModel::Bytes(b)),
        _ => Err(ErrorModel::TypeMismatch(name)),
    }
}

/// The elements of a packed payload, decoded one after the other by the
/// element type's wire form until the payload is exhausted.
pub open spec fn spec_decode_packed(b: Seq<u8>, ty: Type, name: Seq<char>) -> Result<
    Seq<ValueModel>,
    ErrorModel,
>
    decreases b.len(),
{
    if b.len() == 0 {
        Ok(Seq::empty())
    } else {
        let step: Result<(FieldValueModel, int), DecodeError> = match ty.spec_wire_type() {
            WireType::Varint => match spec_parse_varint(b) {
                Ok((v, n)) => Ok((FieldValueModel::Varint(v as u64), n)),
                Err(e) => Err(e),
            },
            WireType::Fixed32 => match spec_parse_fixed32(b) {
                Ok((v, n)) => Ok((FieldValueModel::Fixed32(v), n)),
                Err(e) => Err(e),
            },
            WireType::Fixed64 => match spec_parse_fixed64(b) {
                Ok((v, n)) => Ok((FieldValueModel::Fixed64(v), n)),
                Err(e) => Err(e),
            },
            _ => Err(DecodeError::Eof),
        };
        match step {
            Ok((fv, n)) => if n < 1 || n > b.len() {
                Err(ErrorModel::DecodeError(DecodeError::Eof))
            } else {
                match spec_value_of_scalar(ty, fv, name) {
                    Ok(v) => match spec_decode_packed(b.skip(n), ty, name) {
                        Ok(rest) => Ok(seq![v] + rest),
                        Err(e) => Err(e),
                    },
                    Err(e) => Err(e),
                }
            },
            Err(e) => Err(ErrorModel::DecodeError(e)),
        }
    }
}

/// The slots after assigning into a oneof: every other member of the same
/// oneof group is cleared.
pub open spec fn spec_clear_oneof(vals: Seq<ValueModel>, m: MessageInfo, oi: i32) -> Seq<
    ValueModel,
> {
    Seq::new(
        vals.len(),
        |j: int|
            if 0 <= j < m.fields@.len() && m.fields@[j].oneof_index == Some(oi) {
                ValueModel::Unset
            } else {
                vals[j]
            },
    )
}

/// The name of the first proto2 required field left absent, if any.
pub open spec fn spec_first_missing_required(m: MessageInfo, vals: Seq<ValueModel>, i: int) -> Option<
    Seq<char>,
>
    decreases m.fields@.len() - i,
{
    if i < 0 || i >= m.fields@.len() || i >= vals.len() {
        None
    } else if m.fields@[i].cardinality == Cardinality::Required && vals[i] == ValueModel::Unset {
        Some(m.fields@[i].name@)
    } else {
        spec_first_missing_required(m, vals, i + 1)
    }
}

/// The slots after one non-group token lands: unknown numbers are
/// dropped, repeated fields append — packed or one at a time — map fields
/// gain one entry, scalars last-win, and a oneof assignment clears its
/// brethren.
pub open spec fn spec_apply_token(
    num: int,
    fv: FieldValueModel,
    vals: Seq<ValueModel>,
    m: MessageInfo,
    fuel: nat,
) -> Result<Seq<ValueModel>, ErrorModel>
    decreases fuel, 0nat, 0nat,
{
    let i = spec_field_lookup(m, num, 0);
    if i == -1 {
        Ok(vals)
    } else {
        let f = m.fields@[i];
        let expected = f.ty.spec_wire_type();
        let actual = spec_fv_wire_type(fv);
        if f.cardinality == Cardinality::Repeated {
            if spec_is_map_field(f) {
                match fv {
                    FieldValueModel::Bytes(b) => if fuel == 0 {
                        Err(ErrorModel::RecursionLimit)
                    } else {
                        let child = *f.message_info->0;
                        match spec_decode_message(b, child, (fuel - 1) as nat) {
                            Ok(entry) => if entry.len() < 2 {
                                Err(ErrorModel::Message("key field for map not found"@))
                            } else {
                                match vals[i] {
                                    ValueModel::Dict(d) => Ok(
                                        vals.update(
                                            i,
                                            ValueModel::Dict(d.push((entry[0], entry[1]))),
                                        ),
                                    ),
                                    _ => Err(ErrorModel::TypeMismatch(f.name@)),
                                }
                            },
                            Err(e) => Err(e),
                        }
                    },
                    _ => Err(ErrorModel::TypeMismatch(f.name@)),
                }
            } else if actual == WireType::Bytes && expected != WireType::Bytes && expected
                != WireType::StartGroup {
                // packed form accepted for any packable element type
                match fv {
                    FieldValueModel::Bytes(b) => match spec_decode_packed(b, f.ty, f.name@) {
                        Ok(elems) => match vals[i] {
                            ValueModel::List(l) => Ok(vals.update(i, ValueModel::List(l + elems))),
                            _ => Err(ErrorModel::TypeMismatch(f.name@)),
                        },
                        Err(e) => Err(e),
                    },
                    _ => Err(ErrorModel::TypeMismatch(f.name@)),
                }
            } else if actual == expected {
                if f.ty == Type::Message {
                    match fv {
                        FieldValueModel::Bytes(b) => if f.message_info is None {
                            Err(ErrorModel::Message("message descriptor not found"@))
                        } else if fuel == 0 {
                            Err(ErrorModel::RecursionLimit)
                        } else {
                            match spec_decode_message(b, *f.message_info->0, (fuel - 1) as nat) {
                                Ok(sub) => match vals[i] {
                                    ValueModel::List(l) => Ok(
                                        vals.update(
                                            i,
                                            ValueModel::List(l.push(ValueModel::Message(sub))),
                                        ),
                                    ),
                                    _ => Err(ErrorModel::TypeMismatch(f.name@)),
                                },
                                Err(e) => Err(e),
                            }
                        },
                        _ => Err(ErrorModel::TypeMismatch(f.name@)),
                    }
                } else {
                    match spec_value_of_scalar(f.ty, fv, f.name@) {
                        Ok(v) => match vals[i] {
                            ValueModel::List(l) => Ok(vals.update(i, ValueModel::List(l.push(v)))),
                            _ => Err(ErrorModel::TypeMismatch(f.name@)),
                        },
                        Err(e) => Err(e),
                    }
                }
            } else {
                Err(ErrorModel::TypeMismatch(f.name@))
            }
        } else if actual != expected {
            Err(ErrorModel::TypeMismatch(f.name@))
        } else {
            let decoded: Result<ValueModel, ErrorModel> = if f.ty == Type::Message {
                match fv {
                    FieldValueModel::Bytes(b) => if f.message_info is None {
                        Err(ErrorModel::Message("message descriptor not found"@))
                    } else if fuel == 0 {
                        Err(ErrorModel::RecursionLimit)
                    } else {
                        match spec_decode_message(b, *f.message_info->0, (fuel - 1) as nat) {
                            Ok(sub) => Ok(ValueModel::Message(sub)),
                            Err(e) => Err(e),
                        }
                    },
                    _ => Err(ErrorModel::TypeMismatch(f.name@)),
                }
            } else {
                spec_value_of_scalar(f.ty, fv, f.name@)
            };
            match decoded {
                Ok(v) => match f.oneof_index {
                    Some(oi) => Ok(spec_clear_oneof(vals, m, oi).update(i, v)),
                    None => Ok(vals.update(i, v)),
                },
                Err(e) => Err(e),
            }
        }
    }
}

/// The slots after a decoded group value lands on field `i`: appended for
/// a repeated group, last-wins — with oneof clearing — otherwise.
pub open spec fn spec_store_field(vals: Seq<ValueModel>, m: MessageInfo, i: int, v: ValueModel) -> Result<
    Seq<ValueModel>,
    ErrorModel,
> {
    let f = m.fields@[i];
    if f.cardinality == Cardinality::Repeated {
        match vals[i] {
            ValueModel::List(l) => Ok(vals.update(i, ValueModel::List(l.push(v)))),
            _ => Err(ErrorModel::TypeMismatch(f.name@)),
        }
    } else {
        match f.oneof_index {
            Some(oi) => Ok(spec_clear_oneof(vals, m, oi).update(i, v)),
            None => Ok(vals.update(i, v)),
        }
    }
}

/// Consuming a balanced unknown group: tokens are read and dropped until
/// the terminator carrying the opening number; a different terminator is
/// a fault, as is running out of input.
pub open spec fn spec_skip_group(s: Seq<u8>, num: int, fuel: nat) -> Result<int, ErrorModel>
    decreases fuel, s.len(), 0nat,
{
    if s.len() == 0 {
        Err(ErrorModel::DecodeError(DecodeError::Eof))
    } else {
        match spec_parse_field(s) {
            Ok(((n2, fv), n)) => if n < 1 || n > s.len() {
                Err(ErrorModel::DecodeError(DecodeError::Eof))
            } else {
                match fv {
                    FieldValueModel::EndGroup => if n2 == num {
                        Ok(n)
                    } else {
                        Err(ErrorModel::EndGroup)
                    },
                    FieldValueModel::StartGroup => if fuel == 0 {
                        Err(ErrorModel::RecursionLimit)
                    } else {
                        match spec_skip_group(s.skip(n), n2 as int, (fuel - 1) as nat) {
                            Ok(g) => if g < 0 || n + g > s.len() {
                                Err(ErrorModel::DecodeError(DecodeError::Eof))
                            } else {
                                match spec_skip_group(s.skip(n + g), num, fuel) {
                                    Ok(r) => Ok(n + g + r),
                                    Err(e) => Err(e),
                                }
                            },
                            Err(e) => Err(e),
                        }
                    },
                    _ => match spec_skip_group(s.skip(n), num, fuel) {
                        Ok(r) => Ok(n + r),
                        Err(e) => Err(e),
                    },
                }
            },
            Err(e) => Err(ErrorModel::DecodeError(e)),
        }
    }
}

/// The decode loop: one token at a time until the input — or, inside a
/// group, the matching terminator — ends.  Yields the final slots and the
/// bytes consumed.
#[verifier::opaque]
pub open spec fn spec_decode_fields(
    s: Seq<u8>,
    vals: Seq<ValueModel>,
    m: MessageInfo,
    term: Option<int>,
    fuel: nat,
) -> Result<(Seq<ValueModel>, int), ErrorModel>
    decreases fuel, s.len(), 1nat,
{
    if s.len() == 0 {
        match term {
            Some(_) => Err(ErrorModel::DecodeError(DecodeError::Eof)),
            None => Ok((vals, 0)),
        }
    } else {
        match spec_parse_field(s) {
            Err(e) => Err(ErrorModel::DecodeError(e)),
            Ok(((num, fv), n)) => if n < 1 || n > s.len() {
                Err(ErrorModel::DecodeError(DecodeError::Eof))
            } else {
                match fv {
                    FieldValueModel::EndGroup => match term {
                        Some(t) => if num == t {
                            Ok((vals, n))
                        } else {
                            Err(ErrorModel::EndGroup)
                        },
                        None => Err(ErrorModel::EndGroup),
                    },
                    FieldValueModel::StartGroup => {
                        let i = spec_field_lookup(m, num as int, 0);
                        if i == -1 {
                            match spec_skip_group(s.skip(n), num as int, fuel) {
                                Ok(g) => if g < 0 || n + g > s.len() {
                                    Err(ErrorModel::DecodeError(DecodeError::Eof))
                                } else {
                                    match spec_decode_fields(s.skip(n + g), vals, m, term, fuel) {
                                        Ok((fvals, c)) => Ok((fvals, n + g + c)),
                                        Err(e) => Err(e),
                                    }
                                },
                                Err(e) => Err(e),
                            }
                        } else {
                            let f = m.fields@[i];
                            if f.ty != Type::Group {
                                Err(ErrorModel::TypeMismatch(f.name@))
                            } else if f.message_info is None {
                                Err(ErrorModel::Message("message descriptor not found"@))
                            } else if fuel == 0 {
                                Err(ErrorModel::RecursionLimit)
                            } else {
                                let child = *f.message_info->0;
                                match spec_decode_fields(
                                    s.skip(n),
                                    spec_init_values(child),
                                    child,
                                    Some(num as int),
                                    (fuel - 1) as nat,
                                ) {
                                    Ok((gvals, g)) => if g < 1 || n + g > s.len() {
                                        Err(ErrorModel::DecodeError(DecodeError::Eof))
                                    } else {
                                        let checked: Result<Seq<ValueModel>, ErrorModel> = if child.syntax
                                            == Syntax::Proto2 {
                                            match spec_first_missing_required(child, gvals, 0) {
                                                Some(name) => Err(ErrorModel::Required(name)),
                                                None => Ok(gvals),
                                            }
                                        } else {
                                            Ok(gvals)
                                        };
                                        match checked {
                                            Ok(gvals) => {
                                                let gv = ValueModel::Message(gvals);
                                                let updated = spec_store_field(vals, m, i, gv);
                                                match updated {
                                                    Ok(vals2) => match spec_decode_fields(
                                                        s.skip(n + g),
                                                        vals2,
                                                        m,
                                                        term,
                                                        fuel,
                                                    ) {
                                                        Ok((fvals, c)) => Ok((fvals, n + g + c)),
                                                        Err(e) => Err(e),
                                                    },
                                                    Err(e) => Err(e),
                                                }
                                            },
                                            Err(e) => Err(e),
                                        }
                                    },
                                    Err(e) => Err(e),
                                }
                            }
                        }
                    },
                    _ => match spec_apply_token(num as int, fv, vals, m, fuel) {
                        Ok(vals2) => match spec_decode_fields(s.skip(n), vals2, m, term, fuel) {
                            Ok((fvals, c)) => Ok((fvals, n + c)),
                            Err(e) => Err(e),
                        },
                        Err(e) => Err(e),
                    },
                }
            },
        }
    }
}

/// The decode of one whole message body: fresh slots, the token loop over
/// all of `s`, then the proto2 required-field check.
#[verifier::opaque]
pub open spec fn spec_decode_message(s: Seq<u8>, m: MessageInfo, fuel: nat) -> Result<
    Seq<ValueModel>,
    ErrorModel,
>
    decreases fuel, s.len(), 2nat,
{
    match spec_decode_fields(s, spec_init_values(m), m, None, fuel) {
        Ok((vals, _)) => if m.syntax == Syntax::Proto2 {
            match spec_first_missing_required(m, vals, 0) {
                Some(name) => Err(ErrorModel::Required(name)),
                None => Ok(vals),
            }
        } else {
            Ok(vals)
        },
        Err(e) => Err(e),
    }
}


/// A successful token parse consumes at least one byte.
pub proof fn lemma_parse_field_consumes(s: Seq<u8>)
    requires
        spec_parse_field(s) is Ok,
    ensures
        spec_parse_field(s)->Ok_0.1 >= 1,
{
    let t = crate::wire::spec_parse_tag(s);
    lemma_parse_varint_consumes(s, 0);
    let n1 = t->Ok_0.1;
    let wt = t->Ok_0.0.1;
    let rest = s.skip(n1);
    match wt {
        WireType::Varint => {
            lemma_parse_varint_consumes(rest, 0);
        },
        WireType::Bytes => {
            lemma_parse_varint_consumes(rest, 0);
        },
        _ => {},
    }
}

pub(crate) proof fn lemma_parse_varint_consumes(s: Seq<u8>, index: int)
    requires
        crate::wire::spec_parse_varint_rec(s, index) is Ok,
        index >= 0,
    ensures
        crate::wire::spec_parse_varint_rec(s, index)->Ok_0.1 >= index + 1,
    decreases 10 - index,
{
    if s.len() > index && index < 10 {
        let b = s[index];
        if !(index == 9 && b > 1) && b >= 0x80 {
            lemma_parse_varint_consumes(s, index + 1);
        }
    }
}

/// Relies on String::from_utf8: it succeeds exactly on valid UTF-8 and
/// yields the string those bytes spell.
#[verifier::external_body]
pub(crate) fn string_from_utf8(v: &Vec<u8>) -> (r: Option<String>)
    ensures
        match r {
            Some(s) => valid_utf8(v@) && s@ == decode_utf8(v@),
            None => !valid_utf8(v@),
        },
{
    String::from_utf8(v.clone()).ok()
}

/// The index of the field declared with `num`, by linear search.
fn field_lookup(m: &MessageInfo, num: i32) -> (r: Option<usize>)
    ensures
        match r {
            Some(i) => spec_field_lookup(*m, num as int, 0) == i && i < m.fields@.len(),
            None => spec_field_lookup(*m, num as int, 0) == -1,
        },
{
    let mut i: usize = 0;
    #[verifier::loop_isolation(false)]
    while i < m.fields.len()
        invariant
            0 <= i <= m.fields@.len(),
            spec_field_lookup(*m, num as int, 0) == spec_field_lookup(*m, num as int, i as int),
        decreases m.fields@.len() - i,
    {
        if m.fields[i].number.get() == num {
            return Some(i);
        }
        i += 1;
    }
    None
}

/// Builds the structured value one scalar token denotes.
fn value_of_scalar(ty: Type, fv: FieldValue, name: &String) -> (r: Result<Value, Error>)
    ensures
        match r {
            Ok(v) => spec_value_of_scalar(ty, fv@, name@) == Ok::<ValueModel, ErrorModel>(v@),
            Err(e) => spec_value_of_scalar(ty, fv@, name@) == Err::<ValueModel, ErrorModel>(e@),
        },
{
    match (ty, fv) {
        (Type::Int32, FieldValue::Varint(v)) => Ok(Value::I32(v as i32)),
        (Type::Int64, FieldValue::Varint(v)) => Ok(Value::I64(v as i64)),
        (Type::Uint32, FieldValue::Varint(v)) => Ok(Value::U32(v as u32)),
        (Type::Uint64, FieldValue::Varint(v)) => Ok(Value::U64(v)),
        (Type::SInt32, FieldValue::Varint(v)) => Ok(Value::I32(decode_zig_zag(v) as i32)),
        (Type::SInt64, FieldValue::Varint(v)) => Ok(Value::I64(decode_zig_zag(v))),
        (Type::Bool, FieldValue::Varint(v)) => Ok(Value::Bool(v != 0)),
        (Type::Enum, FieldValue::Varint(v)) => Ok(Value::Enum(v as i32)),
        (Type::Fixed32, FieldValue::Fixed32(x)) => Ok(Value::U32(x)),
        (Type::SFixed32, FieldValue::Fixed32(x)) => Ok(Value::I32(x as i32)),
        (Type::Float, FieldValue::Fixed32(x)) => Ok(Value::F32(x)),
        (Type::Fixed64, FieldValue::Fixed64(x)) => Ok(Value::U64(x)),
        (Type::SFixed64, FieldValue::Fixed64(x)) => Ok(Value::I64(x as i64)),
        (Type::Double, FieldValue::Fixed64(x)) => Ok(Value::F64(x)),
        (Type::String, FieldValue::Bytes(b)) => match string_from_utf8(&b) {
            Some(st) => Ok(Value::String(st)),
            None => Err(Error::InvalidUTF8(name.clone())),
        },
        (Type::Bytes, FieldValue::Bytes(b)) => Ok(Value::Bytes(b)),
        _ => Err(Error::TypeMismatch(name.clone())),
    }
}

/// One fresh slot per field of `m`.
fn init_values(m: &MessageInfo) -> (r: Vec<Value>)
    ensures
        values_view(r@) == spec_init_values(*m),
{
    let mut vals: Vec<Value> = Vec::new();
    let mut i: usize = 0;
    #[verifier::loop_isolation(false)]
    while i < m.fields.len()
        invariant
            0 <= i <= m.fields@.len(),
            vals@.len() == i,
            forall|j: int| 0 <= j < i ==> crate::value::value_view(#[trigger] vals@[j])
                == spec_init_value(m.fields@[j]),
        decreases m.fields@.len() - i,
    {
        let f = &m.fields[i];
        let is_rep = matches!(f.cardinality, Cardinality::Repeated);
        if is_rep {
            let is_map = match &f.message_info {
                Some(c) => matches!(f.ty, Type::Message) && c.is_map,
                None => false,
            };
            if is_map {
                vals.push(Value::Dict(Vec::new()));
            } else {
                vals.push(Value::List(Vec::new()));
            }
        } else {
            vals.push(Value::Unset);
        }
        i += 1;
    }
    proof {
        lemma_values_view_index(vals@);
        assert forall|j: int| 0 <= j < vals@.len() implies values_view(vals@)[j]
            == spec_init_values(*m)[j] by {
            assert(values_view(vals@)[j] == crate::value::value_view(vals@[j]));
        }
        assert(values_view(vals@) =~= spec_init_values(*m));
    }
    vals
}

/// Replaces slot `i` of `vals` with `v`.
fn set_slot(vals: &mut Vec<Value>, i: usize, v: Value)
    requires
        i < old(vals)@.len(),
    ensures
        values_view(final(vals)@) == values_view(old(vals)@).update(
            i as int,
            crate::value::value_view(v),
        ),
        final(vals)@.len() == old(vals)@.len(),
{
    let ghost before = vals@;
    let ghost vv = v;
    vals.set(i, v);
    proof {
        lemma_values_view_index(before);
        lemma_values_view_index(vals@);
        let target = values_view(before).update(i as int, crate::value::value_view(vv));
        assert forall|j: int| 0 <= j < vals@.len() implies values_view(vals@)[j] == target[j] by {
            assert(values_view(vals@)[j] == crate::value::value_view(vals@[j]));
            assert(values_view(before)[j] == crate::value::value_view(before[j]));
        }
        assert(values_view(vals@) =~= target);
    }
}

/// Clears every other member of the oneof group `oi`, then sets slot `i`.
fn assign_oneof(vals: &mut Vec<Value>, m: &MessageInfo, i: usize, oi: i32, v: Value)
    requires
        i < old(vals)@.len(),
        old(vals)@.len() == m.fields@.len(),
    ensures
        values_view(final(vals)@) == spec_clear_oneof(values_view(old(vals)@), *m, oi).update(
            i as int,
            crate::value::value_view(v),
        ),
        final(vals)@.len() == old(vals)@.len(),
{
    let ghost before = values_view(old(vals)@);
    let mut j: usize = 0;
    #[verifier::loop_isolation(false)]
    while j < vals.len()
        invariant
            0 <= j <= vals@.len(),
            vals@.len() == old(vals)@.len(),
            forall|k: int| j <= k < vals@.len() ==> vals@[k] == old(vals)@[k],
            forall|k: int| 0 <= k < j ==> crate::value::value_view(#[trigger] vals@[k]) == (
            if m.fields@[k].oneof_index == Some(oi) {
                ValueModel::Unset
            } else {
                crate::value::value_view(old(vals)@[k])
            }),
        decreases vals@.len() - j,
    {
        let clear = match &m.fields[j].oneof_index {
            Some(x) => *x == oi,
            None => false,
        };
        if clear {
            vals.set(j, Value::Unset);
        }
        j += 1;
    }
    let ghost mid = vals@;
    set_slot(vals, i, v);
    proof {
        lemma_values_view_index(old(vals)@);
        lemma_values_view_index(mid);
        let target = spec_clear_oneof(before, *m, oi).update(i as int, crate::value::value_view(v));
        assert forall|j: int| 0 <= j < values_view(vals@).len() implies values_view(vals@)[j]
            == target[j] by {
            assert(values_view(mid)[j] == crate::value::value_view(mid[j]));
            assert(values_view(old(vals)@)[j] == crate::value::value_view(old(vals)@[j]));
        }
        assert(values_view(vals@) =~= target);
    }
}


/// Takes slot `i` out of `vals`, leaving an `Unset` placeholder.
fn take_slot(vals: &mut Vec<Value>, i: usize) -> (r: Value)
    requires
        i < old(vals)@.len(),
    ensures
        r == old(vals)@[i as int],
        final(vals)@ == old(vals)@.update(i as int, Value::Unset),
        values_view(final(vals)@) == values_view(old(vals)@).update(i as int, ValueModel::Unset),
{
    let ghost before = vals@;
    let r = vals.remove(i);
    vals.insert(i, Value::Unset);
    proof {
        assert(vals@ =~= before.update(i as int, Value::Unset));
        lemma_values_view_index(before);
        lemma_values_view_index(vals@);
        assert forall|j: int| 0 <= j < values_view(vals@).len() implies values_view(vals@)[j]
            == values_view(before).update(i as int, ValueModel::Unset)[j] by {
            assert(values_view(vals@)[j] == crate::value::value_view(vals@[j]));
            assert(values_view(before)[j] == crate::value::value_view(before[j]));
        }
        assert(values_view(vals@) =~= values_view(before).update(i as int, ValueModel::Unset));
    }
    r
}

/// Appends the decoded elements of one packed payload to `l`.
fn decode_packed_into(l: &mut Vec<Value>, payload: &Vec<u8>, ty: Type, name: &String) -> (r:
    Result<(), Error>)
    ensures
        match r {
            Ok(_) => spec_decode_packed(payload@, ty, name@) is Ok && values_view(final(l)@)
                == values_view(old(l)@) + spec_decode_packed(payload@, ty, name@)->Ok_0,
            Err(e) => spec_decode_packed(payload@, ty, name@) == Err::<Seq<ValueModel>, ErrorModel>(
                e@,
            ),
        },
{
    let ghost p0 = payload@;
    let mut pos: usize = 0;
    let ghost lv0 = values_view(l@);
    proof {
        assert(payload@.skip(0) =~= payload@);
        match spec_decode_packed(payload@, ty, name@) {
            Ok(rest) => {
                assert((lv0 + rest).skip(lv0.len() as int) =~= rest);
            },
            Err(_) => {},
        }
    }
    #[verifier::loop_isolation(false)]
    while pos < payload.len()
        invariant
            0 <= pos <= payload@.len(),
            match spec_decode_packed(payload@.skip(pos as int), ty, name@) {
                Ok(rest) => spec_decode_packed(payload@, ty, name@) is Ok && spec_decode_packed(
                    payload@,
                    ty,
                    name@,
                )->Ok_0 == (values_view(l@) + rest).skip(lv0.len() as int) && lv0.is_prefix_of(
                    values_view(l@),
                ),
                Err(e) => spec_decode_packed(payload@, ty, name@) == Err::<
                    Seq<ValueModel>,
                    ErrorModel,
                >(e),
            },
        decreases payload@.len() - pos,
    {
        let ghost s_here = payload@.skip(pos as int);
        let ghost pos_in = pos as int;
        let wt = ty.wire_type();
        let fv: FieldValue = match wt {
            WireType::Varint => {
                proof {
                    if crate::wire::spec_parse_varint(s_here) is Ok {
                        crate::wire::lemma_parse_varint_fits(s_here);
                    }
                }
                match parse_varint(payload, &mut pos) {
                    Ok(v) => FieldValue::Varint(v),
                    Err(e) => {
                        return Err(Error::DecodeError(e));
                    },
                }
            },
            WireType::Fixed32 => match parse_fixed32(payload, &mut pos) {
                Ok(v) => FieldValue::Fixed32(v),
                Err(e) => {
                    return Err(Error::DecodeError(e));
                },
            },
            WireType::Fixed64 => match parse_fixed64(payload, &mut pos) {
                Ok(v) => FieldValue::Fixed64(v),
                Err(e) => {
                    return Err(Error::DecodeError(e));
                },
            },
            _ => {
                return Err(Error::DecodeError(crate::error::DecodeError::Eof));
            },
        };
        let ghost n = pos - pos_in;
        proof {
            if crate::wire::spec_parse_varint(s_here) is Ok {
                lemma_parse_varint_consumes(s_here, 0);
            }
        }
        let v = match value_of_scalar(ty, fv, name) {
            Ok(v) => v,
            Err(e) => {
                return Err(e);
            },
        };
        let ghost lv_before = values_view(l@);
        let ghost lseq_before = l@;
        let ghost vv = crate::value::value_view(v);
        l.push(v);
        proof {
            lemma_values_view_index(lseq_before);
            lemma_values_view_index(l@);
            assert forall|j: int| 0 <= j < values_view(l@).len() implies values_view(l@)[j] == (
            lv_before.push(vv))[j] by {
                assert(values_view(l@)[j] == crate::value::value_view(l@[j]));
                if j < lv_before.len() {
                    assert(l@[j] == lseq_before[j]);
                    assert(values_view(lseq_before)[j] == crate::value::value_view(
                        lseq_before[j],
                    ));
                }
            }
            assert(values_view(l@) =~= lv_before.push(vv));
            assert(payload@.skip(pos as int) =~= s_here.skip(n));
            match spec_decode_packed(payload@.skip(pos as int), ty, name@) {
                Ok(rest) => {
                    assert(spec_decode_packed(s_here, ty, name@) == Ok::<
                        Seq<ValueModel>,
                        ErrorModel,
                    >(seq![vv] + rest));
                    assert((values_view(l@) + rest).skip(lv0.len() as int) =~= ((lv_before
                        + (seq![vv] + rest))).skip(lv0.len() as int));
                },
                Err(_) => {},
            }
        }
    }
    proof {
        assert(payload@.skip(payload@.len() as int) =~= Seq::<u8>::empty());
        assert((values_view(l@) + Seq::<ValueModel>::empty()).skip(lv0.len() as int)
            =~= values_view(l@).skip(lv0.len() as int));
        assert(lv0 + values_view(l@).skip(lv0.len() as int) =~= values_view(l@));
    }
    Ok(())
}


/// The wire type of one parsed token.
fn fv_wire_type(fv: &FieldValue) -> (r: WireType)
    ensures
        r == spec_fv_wire_type(fv@),
{
    match fv {
        FieldValue::Varint(_) => WireType::Varint,
        FieldValue::Fixed32(_) => WireType::Fixed32,
        FieldValue::Fixed64(_) => WireType::Fixed64,
        FieldValue::Bytes(_) => WireType::Bytes,
        FieldValue::StartGroup => WireType::StartGroup,
        FieldValue::EndGroup => WireType::EndGroup,
    }
}

/// The name of the first proto2 required field left absent.
fn first_missing_required(m: &MessageInfo, vals: &Vec<Value>) -> (r: Option<String>)
    ensures
        match r {
            Some(s) => spec_first_missing_required(*m, values_view(vals@), 0) == Some(s@),
            None => spec_first_missing_required(*m, values_view(vals@), 0) is None,
        },
{
    proof {
        lemma_values_view_index(vals@);
    }
    let mut i: usize = 0;
    #[verifier::loop_isolation(false)]
    while i < m.fields.len()
        invariant
            0 <= i <= m.fields@.len(),
            spec_first_missing_required(*m, values_view(vals@), 0) == spec_first_missing_required(
                *m,
                values_view(vals@),
                i as int,
            ),
        decreases m.fields@.len() - i,
    {
        if i < vals.len() {
            let miss = matches!(m.fields[i].cardinality, Cardinality::Required) && matches!(
                &vals[i],
                Value::Unset,
            );
            proof {
                assert(crate::value::value_view(vals@[i as int]) == ValueModel::Unset <==> vals@[
                    i as int
                ] is Unset);
            }
            if miss {
                return Some(m.fields[i].name.clone());
            }
        } else {
            return None;
        }
        i += 1;
    }
    None
}

/// Applies one non-group token to the slots, as the decode loop's spec
/// prescribes: unknown numbers dropped, repeated appended, maps extended,
/// scalars last-wins, oneof members cleared.
#[verifier::rlimit(100)]
#[verifier::spinoff_prover]
fn apply_token(vals: &mut Vec<Value>, num: i32, fv: FieldValue, m: &MessageInfo, fuel: u32) -> (r:
    Result<(), Error>)
    requires
        wf_message_info(*m),
        old(vals)@.len() == m.fields@.len(),
    ensures
        final(vals)@.len() == old(vals)@.len(),
        match r {
            Ok(_) => spec_apply_token(num as int, fv@, values_view(old(vals)@), *m, fuel as nat)
                == Ok::<Seq<ValueModel>, ErrorModel>(values_view(final(vals)@)),
            Err(e) => spec_apply_token(num as int, fv@, values_view(old(vals)@), *m, fuel as nat)
                == Err::<Seq<ValueModel>, ErrorModel>(e@),
        },
    decreases fuel, 0nat, 0nat,
{
    proof {
        lemma_values_view_index(old(vals)@);
    }
    let ghost vv0 = values_view(old(vals)@);
    let i = match field_lookup(m, num) {
        Some(i) => i,
        None => {
            return Ok(());
        },
    };
    let f = &m.fields[i];
    let expected = f.ty.wire_type();
    let actual = fv_wire_type(&fv);
    if matches!(f.cardinality, Cardinality::Repeated) {
        let is_map = match &f.message_info {
            Some(c) => matches!(f.ty, Type::Message) && c.is_map,
            None => false,
        };
        if is_map {
            let b = match fv {
                FieldValue::Bytes(b) => b,
                _ => {
                    return Err(Error::TypeMismatch(f.name.clone()));
                },
            };
            if fuel == 0 {
                return Err(Error::RecursionLimit);
            }
            let child = match &f.message_info {
                Some(c) => c,
                None => {
                    return Err(Error::TypeMismatch(f.name.clone()));
                },
            };
            proof {
                assert(wf_field_info(m.fields@[i as int]));
            }
            let mut entry = match decode_message_vec(&b, child, fuel - 1) {
                Ok(vs) => vs,
                Err(e) => {
                    return Err(e);
                },
            };
            let ghost eseq = entry@;
            proof {
                lemma_values_view_index(eseq);
            }
            if entry.len() < 2 {
                return Err(Error::Message("key field for map not found".to_owned()));
            }
            let k = entry.remove(0);
            let v = entry.remove(0);
            let cur = take_slot(vals, i);
            let ghost evals = spec_decode_message(b@, **child, (fuel - 1) as nat)->Ok_0;
            proof {
                lemma_values_view_index(eseq);
                assert(k == eseq[0]);
                assert(v == eseq.remove(0)[0]);
                assert(eseq.remove(0)[0] == eseq[1]);
                assert(crate::value::value_view(k) == evals[0]);
                assert(crate::value::value_view(v) == evals[1]);
            }
            match cur {
                Value::Dict(mut d) => {
                    let ghost dseq = d@;
                    d.push((k, v));
                    proof {
                        crate::value::lemma_pairs_view_push(dseq, k, v);
                        lemma_values_view_index(vals@);
                        assert(crate::value::value_view(old(vals)@[i as int])
                            == ValueModel::Dict(crate::value::pairs_view(dseq)));
                        assert(crate::value::value_view(k) == evals[0]);
                        assert(crate::value::value_view(v) == evals[1]);
                    }
                    set_slot(vals, i, Value::Dict(d));
                    proof {
                        assert(values_view(old(vals)@).update(
                            i as int,
                            ValueModel::Unset,
                        ).update(
                            i as int,
                            ValueModel::Dict(
                                crate::value::pairs_view(dseq).push((evals[0], evals[1])),
                            ),
                        ) =~= values_view(old(vals)@).update(
                            i as int,
                            ValueModel::Dict(
                                crate::value::pairs_view(dseq).push((evals[0], evals[1])),
                            ),
                        ));
                    }
                    Ok(())
                },
                _ => Err(Error::TypeMismatch(f.name.clone())),
            }
        } else if matches!(actual, WireType::Bytes) && !matches!(expected, WireType::Bytes)
            && !matches!(expected, WireType::StartGroup) {
            let b = match fv {
                FieldValue::Bytes(b) => b,
                _ => {
                    return Err(Error::TypeMismatch(f.name.clone()));
                },
            };
            let mut tmp: Vec<Value> = Vec::new();
            match decode_packed_into(&mut tmp, &b, f.ty, &f.name) {
                Ok(_) => {},
                Err(e) => {
                    return Err(e);
                },
            }
            let cur = take_slot(vals, i);
            match cur {
                Value::List(mut l) => {
                    let ghost lseq = l@;
                    append_values(&mut l, tmp);
                    set_slot(vals, i, Value::List(l));
                    proof {
                        lemma_values_view_index(old(vals)@);
                        let elems = spec_decode_packed(b@, f.ty, f.name@)->Ok_0;
                        assert(values_view(old(vals)@).update(i as int, ValueModel::Unset).update(
                            i as int,
                            ValueModel::List(values_view(lseq) + elems),
                        ) =~= values_view(old(vals)@).update(
                            i as int,
                            ValueModel::List(values_view(lseq) + elems),
                        ));
                    }
                    Ok(())
                },
                _ => Err(Error::TypeMismatch(f.name.clone())),
            }
        } else if wire_type_eq(actual, expected) {
            let elem: Value = if matches!(f.ty, Type::Message) {
                let b = match fv {
                    FieldValue::Bytes(b) => b,
                    _ => {
                        return Err(Error::TypeMismatch(f.name.clone()));
                    },
                };
                let child = match &f.message_info {
                    Some(c) => c,
                    None => {
                        return Err(Error::Message("message descriptor not found".to_owned()));
                    },
                };
                if fuel == 0 {
                    return Err(Error::RecursionLimit);
                }
                proof {
                    assert(wf_field_info(m.fields@[i as int]));
                }
                match decode_message_vec(&b, child, fuel - 1) {
                    Ok(sub) => Value::Message(sub),
                    Err(e) => {
                        return Err(e);
                    },
                }
            } else {
                match value_of_scalar(f.ty, fv, &f.name) {
                    Ok(v) => v,
                    Err(e) => {
                        return Err(e);
                    },
                }
            };
            let cur = take_slot(vals, i);
            match cur {
                Value::List(mut l) => {
                    let ghost lseq = l@;
                    let ghost ev = crate::value::value_view(elem);
                    l.push(elem);
                    proof {
                        crate::value::lemma_values_view_push(lseq, elem);
                    }
                    set_slot(vals, i, Value::List(l));
                    proof {
                        lemma_values_view_index(old(vals)@);
                        assert(values_view(old(vals)@).update(i as int, ValueModel::Unset).update(
                            i as int,
                            ValueModel::List(values_view(lseq).push(ev)),
                        ) =~= values_view(old(vals)@).update(
                            i as int,
                            ValueModel::List(values_view(lseq).push(ev)),
                        ));
                    }
                    Ok(())
                },
                _ => Err(Error::TypeMismatch(f.name.clone())),
            }
        } else {
            Err(Error::TypeMismatch(f.name.clone()))
        }
    } else if !wire_type_eq(actual, expected) {
        Err(Error::TypeMismatch(f.name.clone()))
    } else {
        let decoded: Value = if matches!(f.ty, Type::Message) {
            let b = match fv {
                FieldValue::Bytes(b) => b,
                _ => {
                    return Err(Error::TypeMismatch(f.name.clone()));
                },
            };
            let child = match &f.message_info {
                Some(c) => c,
                None => {
                    return Err(Error::Message("message descriptor not found".to_owned()));
                },
            };
            if fuel == 0 {
                return Err(Error::RecursionLimit);
            }
            proof {
                assert(wf_field_info(m.fields@[i as int]));
            }
            match decode_message_vec(&b, child, fuel - 1) {
                Ok(sub) => Value::Message(sub),
                Err(e) => {
                    return Err(e);
                },
            }
        } else {
            match value_of_scalar(f.ty, fv, &f.name) {
                Ok(v) => v,
                Err(e) => {
                    return Err(e);
                },
            }
        };
        let oi = match &f.oneof_index {
            Some(oi) => Some(*oi),
            None => None,
        };
        match oi {
            Some(oi) => {
                assign_oneof(vals, m, i, oi, decoded);
                Ok(())
            },
            None => {
                set_slot(vals, i, decoded);
                Ok(())
            },
        }
    }
}


/// Structural equality of wire types.
fn wire_type_eq(a: WireType, b: WireType) -> (r: bool)
    ensures
        r == (a == b),
{
    a.get() == b.get()
}



/// Moves every value of `src` onto the end of `dst`, in order.
fn append_values(dst: &mut Vec<Value>, src: Vec<Value>)
    ensures
        values_view(final(dst)@) == values_view(old(dst)@) + values_view(src@),
{
    let ghost d0 = values_view(old(dst)@);
    let ghost s0 = values_view(src@);
    let mut src = src;
    #[verifier::loop_isolation(false)]
    while src.len() > 0
        invariant
            values_view(dst@) + values_view(src@) =~= d0 + s0,
        decreases src@.len(),
    {
        let ghost dseq = dst@;
        let ghost sseq = src@;
        let v = src.remove(0);
        let ghost vv = crate::value::value_view(v);
        dst.push(v);
        proof {
            crate::value::lemma_values_view_push(dseq, sseq[0]);
            lemma_values_view_index(sseq);
            lemma_values_view_index(src@);
            assert forall|j: int| 0 <= j < values_view(src@).len() implies values_view(src@)[j]
                == values_view(sseq).drop_first()[j] by {
                assert(values_view(src@)[j] == crate::value::value_view(src@[j]));
                assert(src@[j] == sseq[j + 1]);
                assert(values_view(sseq)[j + 1] == crate::value::value_view(sseq[j + 1]));
            }
            assert(values_view(src@) =~= values_view(sseq).drop_first());
            assert(values_view(dst@) + values_view(src@) =~= (values_view(dseq) + values_view(
                sseq,
            )));
        }
    }
    proof {
        assert(values_view(src@) =~= Seq::<ValueModel>::empty());
        assert(values_view(dst@) =~= values_view(dst@) + values_view(src@));
    }
}

/// Reads past one balanced unknown group, matching terminator included.
fn skip_group(buf: &Vec<u8>, pos: &mut usize, num: i32, fuel: u32) -> (r: Result<(), Error>)
    requires
        *old(pos) <= buf@.len(),
    ensures
        *old(pos) <= *final(pos) <= buf@.len(),
        match r {
            Ok(_) => spec_skip_group(buf@.skip(*old(pos) as int), num as int, fuel as nat) == Ok::<
                int,
                ErrorModel,
            >(*final(pos) - *old(pos)),
            Err(e) => spec_skip_group(buf@.skip(*old(pos) as int), num as int, fuel as nat)
                == Err::<int, ErrorModel>(e@),
        },
    decreases fuel, buf@.len() - *pos, 0nat,
{
    let ghost s0 = buf@.skip(*old(pos) as int);
    let ghost start = *pos;
    #[verifier::loop_isolation(false)]
    loop
        invariant
            start == *old(pos),
            start <= *pos <= buf@.len(),
            match spec_skip_group(buf@.skip(*pos as int), num as int, fuel as nat) {
                Ok(g) => spec_skip_group(s0, num as int, fuel as nat) == Ok::<int, ErrorModel>(
                    (*pos - start) + g,
                ),
                Err(e) => spec_skip_group(s0, num as int, fuel as nat) == Err::<int, ErrorModel>(
                    e,
                ),
            },
        decreases buf@.len() - *pos,
    {
        let ghost s_here = buf@.skip(*pos as int);
        let ghost pos_in = *pos;
        if *pos >= buf.len() {
            return Err(Error::DecodeError(crate::error::DecodeError::Eof));
        }
        let wf = match parse_next(buf, pos) {
            Ok(wf) => wf,
            Err(e) => {
                return Err(Error::DecodeError(e));
            },
        };
        let ghost n = *pos - pos_in;
        proof {
            lemma_parse_field_consumes(s_here);
            assert(buf@.skip(*pos as int) =~= s_here.skip(n));
        }
        match wf.val {
            FieldValue::EndGroup => {
                if wf.num.get() == num {
                    return Ok(());
                } else {
                    return Err(Error::EndGroup);
                }
            },
            FieldValue::StartGroup => {
                if fuel == 0 {
                    return Err(Error::RecursionLimit);
                }
                let ghost pos_before_inner = *pos;
                match skip_group(buf, pos, wf.num.get(), fuel - 1) {
                    Ok(_) => {},
                    Err(e) => {
                        return Err(e);
                    },
                }
                proof {
                    let g = *pos - pos_before_inner;
                    assert(buf@.skip(*pos as int) =~= s_here.skip(n + g));
                }
            },
            _ => {},
        }
    }
}

/// Stores a decoded group value on field `i`.
fn store_field(vals: &mut Vec<Value>, m: &MessageInfo, i: usize, v: Value) -> (r: Result<
    (),
    Error,
>)
    requires
        i < m.fields@.len(),
        old(vals)@.len() == m.fields@.len(),
    ensures
        final(vals)@.len() == old(vals)@.len(),
        match r {
            Ok(_) => spec_store_field(values_view(old(vals)@), *m, i as int, crate::value::value_view(v))
                == Ok::<Seq<ValueModel>, ErrorModel>(values_view(final(vals)@)),
            Err(e) => spec_store_field(
                values_view(old(vals)@),
                *m,
                i as int,
                crate::value::value_view(v),
            ) == Err::<Seq<ValueModel>, ErrorModel>(e@),
        },
{
    proof {
        lemma_values_view_index(old(vals)@);
    }
    let f = &m.fields[i];
    if matches!(f.cardinality, Cardinality::Repeated) {
        let cur = take_slot(vals, i);
        match cur {
            Value::List(mut l) => {
                let ghost lseq = l@;
                let ghost vv = crate::value::value_view(v);
                l.push(v);
                proof {
                    crate::value::lemma_values_view_push(lseq, v);
                }
                set_slot(vals, i, Value::List(l));
                proof {
                    assert(values_view(old(vals)@).update(i as int, ValueModel::Unset).update(
                        i as int,
                        ValueModel::List(values_view(lseq).push(vv)),
                    ) =~= values_view(old(vals)@).update(
                        i as int,
                        ValueModel::List(values_view(lseq).push(vv)),
                    ));
                }
                Ok(())
            },
            _ => Err(Error::TypeMismatch(f.name.clone())),
        }
    } else {
        let oi = match &f.oneof_index {
            Some(oi) => Some(*oi),
            None => None,
        };
        match oi {
            Some(oi) => {
                assign_oneof(vals, m, i, oi, v);
                Ok(())
            },
            None => {
                set_slot(vals, i, v);
                Ok(())
            },
        }
    }
}


/// Unfolding `spec_decode_fields` on empty input.
proof fn lemma_df_end(s: Seq<u8>, vals: Seq<ValueModel>, m: MessageInfo, term: Option<int>, fuel: nat)
    requires
        s.len() == 0,
    ensures
        spec_decode_fields(s, vals, m, term, fuel) == (match term {
            Some(_) => Err::<(Seq<ValueModel>, int), ErrorModel>(
                ErrorModel::DecodeError(DecodeError::Eof),
            ),
            None => Ok::<(Seq<ValueModel>, int), ErrorModel>((vals, 0)),
        }),
{
    reveal(spec_decode_fields);
}

/// Unfolding `spec_decode_fields` on a token-parse fault.
proof fn lemma_df_parse_err(
    s: Seq<u8>,
    vals: Seq<ValueModel>,
    m: MessageInfo,
    term: Option<int>,
    fuel: nat,
    e: DecodeError,
)
    requires
        s.len() > 0,
        spec_parse_field(s) == Err::<((i32, FieldValueModel), int), DecodeError>(e),
    ensures
        spec_decode_fields(s, vals, m, term, fuel) == Err::<(Seq<ValueModel>, int), ErrorModel>(
            ErrorModel::DecodeError(e),
        ),
{
    reveal(spec_decode_fields);
}

/// Unfolding `spec_decode_fields` on a group terminator.
proof fn lemma_df_endgroup(
    s: Seq<u8>,
    vals: Seq<ValueModel>,
    m: MessageInfo,
    term: Option<int>,
    fuel: nat,
    num: i32,
    n: int,
)
    requires
        s.len() > 0,
        spec_parse_field(s) == Ok::<((i32, FieldValueModel), int), DecodeError>(
            ((num, FieldValueModel::EndGroup), n),
        ),
        1 <= n <= s.len(),
    ensures
        spec_decode_fields(s, vals, m, term, fuel) == (match term {
            Some(t) => if num == t {
                Ok::<(Seq<ValueModel>, int), ErrorModel>((vals, n))
            } else {
                Err::<(Seq<ValueModel>, int), ErrorModel>(ErrorModel::EndGroup)
            },
            None => Err::<(Seq<ValueModel>, int), ErrorModel>(ErrorModel::EndGroup),
        }),
{
    reveal(spec_decode_fields);
}

/// Unfolding `spec_decode_fields` on an ordinary value token.
proof fn lemma_df_token(
    s: Seq<u8>,
    vals: Seq<ValueModel>,
    m: MessageInfo,
    term: Option<int>,
    fuel: nat,
    num: i32,
    fv: FieldValueModel,
    n: int,
)
    requires
        s.len() > 0,
        spec_parse_field(s) == Ok::<((i32, FieldValueModel), int), DecodeError>(((num, fv), n)),
        1 <= n <= s.len(),
        !(fv is EndGroup),
        !(fv is StartGroup),
    ensures
        spec_decode_fields(s, vals, m, term, fuel) == (match spec_apply_token(
            num as int,
            fv,
            vals,
            m,
            fuel,
        ) {
            Ok(vals2) => match spec_decode_fields(s.skip(n), vals2, m, term, fuel) {
                Ok((fvals, c)) => Ok::<(Seq<ValueModel>, int), ErrorModel>((fvals, n + c)),
                Err(e) => Err(e),
            },
            Err(e) => Err(e),
        }),
{
    reveal(spec_decode_fields);
}

/// Unfolding `spec_decode_fields` on an unknown group opener.
proof fn lemma_df_unknown_group(
    s: Seq<u8>,
    vals: Seq<ValueModel>,
    m: MessageInfo,
    term: Option<int>,
    fuel: nat,
    num: i32,
    n: int,
)
    requires
        s.len() > 0,
        spec_parse_field(s) == Ok::<((i32, FieldValueModel), int), DecodeError>(
            ((num, FieldValueModel::StartGroup), n),
        ),
        1 <= n <= s.len(),
        spec_field_lookup(m, num as int, 0) == -1,
    ensures
        spec_decode_fields(s, vals, m, term, fuel) == (match spec_skip_group(
            s.skip(n),
            num as int,
            fuel,
        ) {
            Ok(g) => if g < 0 || n + g > s.len() {
                Err::<(Seq<ValueModel>, int), ErrorModel>(
                    ErrorModel::DecodeError(DecodeError::Eof),
                )
            } else {
                match spec_decode_fields(s.skip(n + g), vals, m, term, fuel) {
                    Ok((fvals, c)) => Ok::<(Seq<ValueModel>, int), ErrorModel>(
                        (fvals, n + g + c),
                    ),
                    Err(e) => Err(e),
                }
            },
            Err(e) => Err(e),
        }),
{
    reveal(spec_decode_fields);
}

/// Unfolding `spec_decode_fields` on a declared group field.
proof fn lemma_df_group(
    s: Seq<u8>,
    vals: Seq<ValueModel>,
    m: MessageInfo,
    term: Option<int>,
    fuel: nat,
    num: i32,
    n: int,
    i: int,
)
    requires
        s.len() > 0,
        spec_parse_field(s) == Ok::<((i32, FieldValueModel), int), DecodeError>(
            ((num, FieldValueModel::StartGroup), n),
        ),
        1 <= n <= s.len(),
        spec_field_lookup(m, num as int, 0) == i,
        0 <= i < m.fields@.len(),
    ensures
        ({
            let f = m.fields@[i];
            spec_decode_fields(s, vals, m, term, fuel) == (if f.ty != Type::Group {
                Err::<(Seq<ValueModel>, int), ErrorModel>(ErrorModel::TypeMismatch(f.name@))
            } else if f.message_info is None {
                Err::<(Seq<ValueModel>, int), ErrorModel>(
                    ErrorModel::Message("message descriptor not found"@),
                )
            } else if fuel == 0 {
                Err::<(Seq<ValueModel>, int), ErrorModel>(ErrorModel::RecursionLimit)
            } else {
                let child = *f.message_info->0;
                match spec_decode_fields(
                    s.skip(n),
                    spec_init_values(child),
                    child,
                    Some(num as int),
                    (fuel - 1) as nat,
                ) {
                    Ok((gvals, g)) => if g < 1 || n + g > s.len() {
                        Err::<(Seq<ValueModel>, int), ErrorModel>(
                            ErrorModel::DecodeError(DecodeError::Eof),
                        )
                    } else {
                        let checked: Result<Seq<ValueModel>, ErrorModel> = if child.syntax
                            == Syntax::Proto2 {
                            match spec_first_missing_required(child, gvals, 0) {
                                Some(name) => Err(ErrorModel::Required(name)),
                                None => Ok(gvals),
                            }
                        } else {
                            Ok(gvals)
                        };
                        match checked {
                            Ok(gvals) => match spec_store_field(
                                vals,
                                m,
                                i,
                                ValueModel::Message(gvals),
                            ) {
                                Ok(vals2) => match spec_decode_fields(
                                    s.skip(n + g),
                                    vals2,
                                    m,
                                    term,
                                    fuel,
                                ) {
                                    Ok((fvals, c)) => Ok::<(Seq<ValueModel>, int), ErrorModel>(
                                        (fvals, n + g + c),
                                    ),
                                    Err(e) => Err(e),
                                },
                                Err(e) => Err(e),
                            },
                            Err(e) => Err(e),
                        }
                    },
                    Err(e) => Err(e),
                }
            })
        }),
{
    reveal(spec_decode_fields);
}

/// The spec image of a group terminator argument.
pub open spec fn term_view(t: Option<i32>) -> Option<int> {
    match t {
        Some(x) => Some(x as int),
        None => None,
    }
}

/// The decode loop over one message body or one group: tokens applied in
/// order, groups recursed into, until the input or the matching
/// terminator ends.
#[verifier::rlimit(100)]
#[verifier::spinoff_prover]
fn decode_fields(
    buf: &Vec<u8>,
    pos: &mut usize,
    vals: &mut Vec<Value>,
    m: &MessageInfo,
    term: Option<i32>,
    fuel: u32,
) -> (r: Result<(), Error>)
    requires
        wf_message_info(*m),
        *old(pos) <= buf@.len(),
        old(vals)@.len() == m.fields@.len(),
    ensures
        *old(pos) <= *final(pos) <= buf@.len(),
        final(vals)@.len() == old(vals)@.len(),
        match r {
            Ok(_) => spec_decode_fields(
                buf@.skip(*old(pos) as int),
                values_view(old(vals)@),
                *m,
                term_view(term),
                fuel as nat,
            ) == Ok::<(Seq<ValueModel>, int), ErrorModel>(
                (values_view(final(vals)@), *final(pos) - *old(pos)),
            ),
            Err(e) => spec_decode_fields(
                buf@.skip(*old(pos) as int),
                values_view(old(vals)@),
                *m,
                term_view(term),
                fuel as nat,
            ) == Err::<(Seq<ValueModel>, int), ErrorModel>(e@),
        },
    decreases fuel, buf@.len() - *pos, 1nat,
{
    let ghost s0 = buf@.skip(*old(pos) as int);
    let ghost start = *pos;
    let ghost tv = term_view(term);
    #[verifier::loop_isolation(false)]
    loop
        invariant
            start == *old(pos),
            start <= *pos <= buf@.len(),
            vals@.len() == m.fields@.len(),
            match spec_decode_fields(
                buf@.skip(*pos as int),
                values_view(vals@),
                *m,
                tv,
                fuel as nat,
            ) {
                Ok((fvals, c)) => spec_decode_fields(s0, values_view(old(vals)@), *m, tv, fuel as nat)
                    == Ok::<(Seq<ValueModel>, int), ErrorModel>((fvals, (*pos - start) + c)),
                Err(e) => spec_decode_fields(s0, values_view(old(vals)@), *m, tv, fuel as nat)
                    == Err::<(Seq<ValueModel>, int), ErrorModel>(e),
            },
        decreases buf@.len() - *pos,
    {
        let ghost s_here = buf@.skip(*pos as int);
        let ghost pos_in = *pos;
        let ghost vv_in = values_view(vals@);
        proof {
            lemma_values_view_index(vals@);
        }
        if *pos >= buf.len() {
            proof {
                lemma_df_end(s_here, vv_in, *m, tv, fuel as nat);
            }
            match term {
                None => {
                    return Ok(());
                },
                Some(_) => {
                    return Err(Error::DecodeError(crate::error::DecodeError::Eof));
                },
            }
        }
        let wf = match parse_next(buf, pos) {
            Ok(wf) => wf,
            Err(e) => {
                proof {
                    lemma_df_parse_err(s_here, vv_in, *m, tv, fuel as nat, e);
                }
                return Err(Error::DecodeError(e));
            },
        };
        let ghost n = *pos - pos_in;
        proof {
            lemma_parse_field_consumes(s_here);
            assert(buf@.skip(*pos as int) =~= s_here.skip(n));
        }
        match wf.val {
            FieldValue::EndGroup => {
                proof {
                    lemma_df_endgroup(s_here, vv_in, *m, tv, fuel as nat, wf.num.spec_get(), n);
                }
                match term {
                    Some(t) => {
                        if wf.num.get() == t {
                            return Ok(());
                        } else {
                            return Err(Error::EndGroup);
                        }
                    },
                    None => {
                        return Err(Error::EndGroup);
                    },
                }
            },
            FieldValue::StartGroup => {
                let num = wf.num.get();
                match field_lookup(m, num) {
                    None => {
                        let ghost pos_before_skip = *pos;
                        proof {
                            assert(buf@.skip(pos_before_skip as int) =~= s_here.skip(n));
                            lemma_df_unknown_group(
                                s_here,
                                vv_in,
                                *m,
                                tv,
                                fuel as nat,
                                wf.num.spec_get(),
                                n,
                            );
                        }
                        match skip_group(buf, pos, num, fuel) {
                            Ok(_) => {},
                            Err(e) => {
                                return Err(e);
                            },
                        }
                        proof {
                            let g = *pos - pos_before_skip;
                            assert(buf@.skip(*pos as int) =~= s_here.skip(n + g));
                            assert(spec_skip_group(s_here.skip(n), num as int, fuel as nat) == Ok::<
                                int,
                                ErrorModel,
                            >(g));
                        }
                    },
                    Some(i) => {
                        proof {
                            lemma_df_group(
                                s_here,
                                vv_in,
                                *m,
                                tv,
                                fuel as nat,
                                wf.num.spec_get(),
                                n,
                                i as int,
                            );
                        }
                        let f = &m.fields[i];
                        if !matches!(f.ty, Type::Group) {
                            return Err(Error::TypeMismatch(f.name.clone()));
                        }
                        let child = match &f.message_info {
                            Some(c) => c,
                            None => {
                                return Err(
                                    Error::Message("message descriptor not found".to_owned()),
                                );
                            },
                        };
                        if fuel == 0 {
                            return Err(Error::RecursionLimit);
                        }
                        proof {
                            assert(wf_field_info(m.fields@[i as int]));
                        }
                        let mut gvals = init_values(child);
                        proof {
                            lemma_values_view_index(gvals@);
                        }
                        let ghost pos_before_grp = *pos;
                        match decode_fields(buf, pos, &mut gvals, child, Some(num), fuel - 1) {
                            Ok(_) => {},
                            Err(e) => {
                                return Err(e);
                            },
                        }
                        proof {
                            let g = *pos - pos_before_grp;
                            lemma_df_consumes(
                                s_here.skip(n),
                                spec_init_values(**child),
                                **child,
                                Some(wf.num.spec_get() as int),
                                (fuel - 1) as nat,
                            );
                            assert(g >= 1);
                        }
                        proof {
                            let g = *pos - pos_before_grp;
                            assert(buf@.skip(*pos as int) =~= s_here.skip(n + g));
                        }
                        if matches!(child.syntax, Syntax::Proto2) {
                            match first_missing_required(child, &gvals) {
                                Some(name) => {
                                    return Err(Error::Required(name));
                                },
                                None => {},
                            }
                        }
                        let gv = Value::Message(gvals);
                        let ghost gvv = crate::value::value_view(gv);
                        match store_field(vals, m, i, gv) {
                            Ok(_) => {},
                            Err(e) => {
                                return Err(e);
                            },
                        }
                        proof {
                            let g = *pos - pos_before_grp;
                            let vv2 = values_view(vals@);
                            assert(spec_store_field(vv_in, *m, i as int, gvv) == Ok::<
                                Seq<ValueModel>,
                                ErrorModel,
                            >(vv2));
                        }
                    },
                }
            },
            _ => {
                let num = wf.num.get();
                let ghost fvv = wf.val@;
                proof {
                    lemma_df_token(s_here, vv_in, *m, tv, fuel as nat, wf.num.spec_get(), fvv, n);
                }
                match apply_token(vals, num, wf.val, m, fuel) {
                    Ok(_) => {},
                    Err(e) => {
                        return Err(e);
                    },
                }
                proof {
                    let vv2 = values_view(vals@);
                    assert(spec_apply_token(num as int, fvv, vv_in, *m, fuel as nat) == Ok::<
                        Seq<ValueModel>,
                        ErrorModel,
                    >(vv2));
                }
            },
        }
    }
}


/// A decode-loop run consumes no bytes only on empty input; inside a
/// group it always consumes the terminator.
proof fn lemma_df_consumes(
    s: Seq<u8>,
    vals: Seq<ValueModel>,
    m: MessageInfo,
    term: Option<int>,
    fuel: nat,
)
    requires
        spec_decode_fields(s, vals, m, term, fuel) is Ok,
    ensures
        spec_decode_fields(s, vals, m, term, fuel)->Ok_0.1 >= 0,
        term is Some ==> spec_decode_fields(s, vals, m, term, fuel)->Ok_0.1 >= 1,
    decreases fuel, s.len(), 1nat,
{
    reveal(spec_decode_fields);
    if s.len() == 0 {
    } else {
        match spec_parse_field(s) {
            Ok(((num, fv), n)) => {
                if 1 <= n <= s.len() {
                    match fv {
                        FieldValueModel::EndGroup => {},
                        FieldValueModel::StartGroup => {
                            let i = spec_field_lookup(m, num as int, 0);
                            if i == -1 {
                                match spec_skip_group(s.skip(n), num as int, fuel) {
                                    Ok(g) => {
                                        if 0 <= g && n + g <= s.len() {
                                            lemma_df_consumes(s.skip(n + g), vals, m, term, fuel);
                                        }
                                    },
                                    Err(_) => {},
                                }
                            } else {
                                let f = m.fields@[i];
                                if f.ty == Type::Group && f.message_info is Some && fuel > 0 {
                                    let child = *f.message_info->0;
                                    match spec_decode_fields(
                                        s.skip(n),
                                        spec_init_values(child),
                                        child,
                                        Some(num as int),
                                        (fuel - 1) as nat,
                                    ) {
                                        Ok((gvals, g)) => {
                                            if 1 <= g && n + g <= s.len() {
                                                let checked: Result<
                                                    Seq<ValueModel>,
                                                    ErrorModel,
                                                > = if child.syntax == Syntax::Proto2 {
                                                    match spec_first_missing_required(
                                                        child,
                                                        gvals,
                                                        0,
                                                    ) {
                                                        Some(name) => Err(
                                                            ErrorModel::Required(name),
                                                        ),
                                                        None => Ok(gvals),
                                                    }
                                                } else {
                                                    Ok(gvals)
                                                };
                                                match checked {
                                                    Ok(gvals2) => {
                                                        match spec_store_field(
                                                            vals,
                                                            m,
                                                            i,
                                                            ValueModel::Message(gvals2),
                                                        ) {
                                                            Ok(vals2) => {
                                                                lemma_df_consumes(
                                                                    s.skip(n + g),
                                                                    vals2,
                                                                    m,
                                                                    term,
                                                                    fuel,
                                                                );
                                                            },
                                                            Err(_) => {},
                                                        }
                                                    },
                                                    Err(_) => {},
                                                }
                                            }
                                        },
                                        Err(_) => {},
                                    }
                                }
                            }
                        },
                        _ => {
                            match spec_apply_token(num as int, fv, vals, m, fuel) {
                                Ok(vals2) => {
                                    lemma_df_consumes(s.skip(n), vals2, m, term, fuel);
                                },
                                Err(_) => {},
                            }
                        },
                    }
                }
            },
            Err(_) => {},
        }
    }
}


/// Unfolding `spec_decode_message`.
#[verifier::rlimit(100)]
#[verifier::spinoff_prover]
proof fn lemma_dm_unfold(s: Seq<u8>, m: MessageInfo, fuel: nat)
    ensures
        spec_decode_message(s, m, fuel) == (match spec_decode_fields(
            s,
            spec_init_values(m),
            m,
            None,
            fuel,
        ) {
            Ok((vals, _)) => if m.syntax == Syntax::Proto2 {
                match spec_first_missing_required(m, vals, 0) {
                    Some(name) => Err::<Seq<ValueModel>, ErrorModel>(ErrorModel::Required(name)),
                    None => Ok::<Seq<ValueModel>, ErrorModel>(vals),
                }
            } else {
                Ok::<Seq<ValueModel>, ErrorModel>(vals)
            },
            Err(e) => Err::<Seq<ValueModel>, ErrorModel>(e),
        }),
{
    reveal_with_fuel(spec_decode_message, 1);
    match spec_decode_fields(s, spec_init_values(m), m, None, fuel) {
        Ok((vals, c)) => {
            assert(spec_decode_message(s, m, fuel) == (if m.syntax == Syntax::Proto2 {
                match spec_first_missing_required(m, vals, 0) {
                    Some(name) => Err::<Seq<ValueModel>, ErrorModel>(
                        ErrorModel::Required(name),
                    ),
                    None => Ok::<Seq<ValueModel>, ErrorModel>(vals),
                }
            } else {
                Ok::<Seq<ValueModel>, ErrorModel>(vals)
            }));
        },
        Err(e) => {
            assert(spec_decode_message(s, m, fuel) == Err::<Seq<ValueModel>, ErrorModel>(e));
        },
    }
}

/// Decodes one whole message body from `buf`, the proto2 required-field
/// check included.
fn decode_message_vec(buf: &Vec<u8>, m: &MessageInfo, fuel: u32) -> (r: Result<Vec<Value>, Error>)
    requires
        wf_message_info(*m),
    ensures
        match r {
            Ok(vals) => spec_decode_message(buf@, *m, fuel as nat) == Ok::<
                Seq<ValueModel>,
                ErrorModel,
            >(values_view(vals@)),
            Err(e) => spec_decode_message(buf@, *m, fuel as nat) == Err::<
                Seq<ValueModel>,
                ErrorModel,
            >(e@),
        },
    decreases fuel, buf@.len(), 2nat,
{
    let mut vals = init_values(m);
    let mut pos: usize = 0;
    proof {
        lemma_values_view_index(vals@);
        assert(buf@.skip(0) =~= buf@);
    }
    let ghost iv = values_view(vals@);
    proof {
        lemma_dm_unfold(buf@, *m, fuel as nat);
    }
    match decode_fields(buf, &mut pos, &mut vals, m, None, fuel) {
        Ok(_) => {},
        Err(e) => {
            proof {
                assert(spec_decode_fields(buf@, spec_init_values(*m), *m, None, fuel as nat)
                    == Err::<(Seq<ValueModel>, int), ErrorModel>(e@)) by {
                    assert(spec_decode_fields(
                        buf@.skip(0),
                        iv,
                        *m,
                        term_view(None),
                        fuel as nat,
                    ) == Err::<(Seq<ValueModel>, int), ErrorModel>(e@));
                    assert(iv == spec_init_values(*m));
                    assert(buf@.skip(0) == buf@);
                    assert(term_view(None) == None::<int>);
                };
            }
            return Err(e);
        },
    }
    proof {
        assert(spec_decode_fields(buf@, spec_init_values(*m), *m, None, fuel as nat) == Ok::<
            (Seq<ValueModel>, int),
            ErrorModel,
        >((values_view(vals@), pos as int))) by {
            assert(spec_decode_fields(buf@.skip(0), iv, *m, term_view(None), fuel as nat) == Ok::<
                (Seq<ValueModel>, int),
                ErrorModel,
            >((values_view(vals@), pos as int)));
            assert(iv == spec_init_values(*m));
            assert(buf@.skip(0) == buf@);
        };
    }
    if matches!(m.syntax, Syntax::Proto2) {
        match first_missing_required(m, &vals) {
            Some(name) => {
                return Err(Error::Required(name));
            },
            None => {},
        }
    }
    Ok(vals)
}

/// What a whole decode yields: a message value, or the first fault.
pub open spec fn spec_decode(s: Seq<u8>, m: MessageInfo, fuel: nat) -> Result<
    ValueModel,
    ErrorModel,
> {
    match spec_decode_message(s, m, fuel) {
        Ok(vals) => Ok(ValueModel::Message(vals)),
        Err(e) => Err(e),
    }
}

/// Decodes wire bytes into a structured message value under a
/// descriptor: exactly the image of `spec_decode`, or its fault.
pub fn from_vec(buf: &Vec<u8>, info: &MessageInfo) -> (r: Result<Value, Error>)
    requires
        wf_message_info(*info),
    ensures
        match r {
            Ok(v) => spec_decode(buf@, *info, RECURSION_LIMIT as nat) == Ok::<
                ValueModel,
                ErrorModel,
            >(v@),
            Err(e) => spec_decode(buf@, *info, RECURSION_LIMIT as nat) == Err::<
                ValueModel,
                ErrorModel,
            >(e@),
        },
{
    match decode_message_vec(buf, info, RECURSION_LIMIT) {
        Ok(vals) => Ok(Value::Message(vals)),
        Err(e) => Err(e),
    }
}


// ------------------------------------------------------------------
// Laws: encode/decode round trip and last-wins, for messages of plain
// scalar fields.

/// The wire token one scalar occurrence travels as.
pub open spec fn spec_scalar_token(ty: Type, v: ValueModel) -> FieldValueModel {
    match (ty, v) {
        (Type::Int32, ValueModel::I32(x)) => FieldValueModel::Varint(x as i64 as u64),
        (Type::Int64, ValueModel::I64(x)) => FieldValueModel::Varint(x as u64),
        (Type::Uint32, ValueModel::U32(x)) => FieldValueModel::Varint(x as u64),
        (Type::Uint64, ValueModel::U64(x)) => FieldValueModel::Varint(x),
        (Type::SInt32, ValueModel::I32(x)) => FieldValueModel::Varint(
            crate::wire::spec_zig_zag_enc(x as i64),
        ),
        (Type::SInt64, ValueModel::I64(x)) => FieldValueModel::Varint(
            crate::wire::spec_zig_zag_enc(x),
        ),
        (Type::Bool, ValueModel::Bool(b)) => FieldValueModel::Varint(
            if b {
                1
            } else {
                0
            },
        ),
        (Type::Enum, ValueModel::Enum(x)) => FieldValueModel::Varint(x as i64 as u64),
        (Type::Fixed32, ValueModel::U32(x)) => FieldValueModel::Fixed32(x),
        (Type::SFixed32, ValueModel::I32(x)) => FieldValueModel::Fixed32(x as u32),
        (Type::Float, ValueModel::F32(x)) => FieldValueModel::Fixed32(x),
        (Type::Fixed64, ValueModel::U64(x)) => FieldValueModel::Fixed64(x),
        (Type::SFixed64, ValueModel::I64(x)) => FieldValueModel::Fixed64(x as u64),
        (Type::Double, ValueModel::F64(x)) => FieldValueModel::Fixed64(x),
        (Type::String, ValueModel::String(cs)) => FieldValueModel::Bytes(
            vstd::utf8::encode_utf8(cs),
        ),
        (Type::Bytes, ValueModel::Bytes(b)) => FieldValueModel::Bytes(b),
        _ => FieldValueModel::EndGroup,
    }
}

proof fn lemma_trunc_i32(x: i32)
    by (bit_vector)
    ensures
        ((x as i64 as u64) as i32) == x,
        ((x as u32) as i32) == x,
{
}

proof fn lemma_trunc_i64(x: i64)
    by (bit_vector)
    ensures
        ((x as u64) as i64) == x,
{
}

proof fn lemma_trunc_u32(x: u32)
    by (bit_vector)
    ensures
        ((x as u64) as u32) == x,
{
}

/// The value a scalar token decodes back to is the value it was made
/// from.
pub proof fn lemma_scalar_token_round_trip(ty: Type, v: ValueModel, name: Seq<char>)
    requires
        crate::ser::spec_scalar_payload(ty, v) is Some,
    ensures
        spec_value_of_scalar(ty, spec_scalar_token(ty, v), name) == Ok::<ValueModel, ErrorModel>(
            v,
        ),
        spec_fv_wire_type(spec_scalar_token(ty, v)) == ty.spec_wire_type(),
{
    broadcast use vstd::utf8::encode_utf8_valid_utf8, vstd::utf8::encode_utf8_decode_utf8;

    match (ty, v) {
        (Type::Int32, ValueModel::I32(x)) => {
            lemma_trunc_i32(x);
        },
        (Type::Int64, ValueModel::I64(x)) => {
            lemma_trunc_i64(x);
        },
        (Type::Uint32, ValueModel::U32(x)) => {
            lemma_trunc_u32(x);
        },
        (Type::SInt32, ValueModel::I32(x)) => {
            crate::wire::lemma_zig_zag_round_trip(x as i64, 0);
            lemma_trunc_i32(x);
            assert((x as i64) as i32 == x) by (bit_vector);
        },
        (Type::SInt64, ValueModel::I64(x)) => {
            crate::wire::lemma_zig_zag_round_trip(x, 0);
        },
        (Type::Enum, ValueModel::Enum(x)) => {
            lemma_trunc_i32(x);
        },
        (Type::SFixed32, ValueModel::I32(x)) => {
            lemma_trunc_i32(x);
        },
        (Type::SFixed64, ValueModel::I64(x)) => {
            lemma_trunc_i64(x);
        },
        _ => {},
    }
}

/// Whether a scalar value's body fits the length prefix a machine can
/// carry.
pub open spec fn spec_scalar_fits(ty: Type, v: ValueModel) -> bool {
    match (ty, v) {
        (Type::String, ValueModel::String(cs)) => vstd::utf8::encode_utf8(cs).len() <= u64::MAX,
        (Type::Bytes, ValueModel::Bytes(b)) => b.len() <= u64::MAX,
        _ => true,
    }
}

/// Parsing a length-delimited scalar payload yields its token.
#[verifier::rlimit(100)]
#[verifier::spinoff_prover]
proof fn lemma_parse_scalar_payload_ld(ty: Type, v: ValueModel, rest: Seq<u8>)
    requires
        ty == Type::String || ty == Type::Bytes,
        crate::ser::spec_scalar_payload(ty, v) is Some,
        spec_scalar_fits(ty, v),
    ensures
        ({
            let p = crate::ser::spec_scalar_payload(ty, v)->0;
            crate::wire::spec_parse_wire_value(p + rest, ty.spec_wire_type()) == Ok::<
                (FieldValueModel, int),
                DecodeError,
            >((spec_scalar_token(ty, v), p.len() as int))
        }),
{
    match (ty, v) {
        (Type::String, ValueModel::String(cs)) => {
            let body = vstd::utf8::encode_utf8(cs);
            lemma_parse_len_delimited(body, rest);
            let p = crate::ser::spec_scalar_payload(ty, v)->0;
            assert(p + rest =~= (crate::wire::varint_enc(body.len() as u64) + body) + rest);
        },
        (Type::Bytes, ValueModel::Bytes(b)) => {
            lemma_parse_len_delimited(b, rest);
            let p = crate::ser::spec_scalar_payload(ty, v)->0;
            assert(p + rest =~= (crate::wire::varint_enc(b.len() as u64) + b) + rest);
        },
        _ => {
            assert(false);
        },
    }
}

/// Parsing a scalar payload under its wire type yields its token.
#[verifier::rlimit(100)]
#[verifier::spinoff_prover]
proof fn lemma_parse_scalar_payload(ty: Type, v: ValueModel, rest: Seq<u8>)
    requires
        ty != Type::Message,
        ty != Type::Group,
        crate::ser::spec_scalar_payload(ty, v) is Some,
        spec_scalar_fits(ty, v),
    ensures
        ({
            let p = crate::ser::spec_scalar_payload(ty, v)->0;
            crate::wire::spec_parse_wire_value(p + rest, ty.spec_wire_type()) == Ok::<
                (FieldValueModel, int),
                DecodeError,
            >((spec_scalar_token(ty, v), p.len() as int))
        }),
{
    match (ty, v) {
        (Type::Int32, ValueModel::I32(x)) => {
            crate::wire::lemma_varint_round_trip(x as i64 as u64, rest);
        },
        (Type::Int64, ValueModel::I64(x)) => {
            crate::wire::lemma_varint_round_trip(x as u64, rest);
        },
        (Type::Uint32, ValueModel::U32(x)) => {
            crate::wire::lemma_varint_round_trip(x as u64, rest);
        },
        (Type::Uint64, ValueModel::U64(x)) => {
            crate::wire::lemma_varint_round_trip(x, rest);
        },
        (Type::SInt32, ValueModel::I32(x)) => {
            crate::wire::lemma_varint_round_trip(crate::wire::spec_zig_zag_enc(x as i64), rest);
        },
        (Type::SInt64, ValueModel::I64(x)) => {
            crate::wire::lemma_varint_round_trip(crate::wire::spec_zig_zag_enc(x), rest);
        },
        (Type::Bool, ValueModel::Bool(b)) => {
            crate::wire::lemma_varint_round_trip(
                if b {
                    1
                } else {
                    0
                },
                rest,
            );
        },
        (Type::Enum, ValueModel::Enum(x)) => {
            crate::wire::lemma_varint_round_trip(x as i64 as u64, rest);
        },
        (Type::Fixed32, ValueModel::U32(x)) => {
            crate::wire::lemma_fixed32_round_trip(x, rest);
        },
        (Type::SFixed32, ValueModel::I32(x)) => {
            crate::wire::lemma_fixed32_round_trip(x as u32, rest);
        },
        (Type::Float, ValueModel::F32(x)) => {
            crate::wire::lemma_fixed32_round_trip(x, rest);
        },
        (Type::Fixed64, ValueModel::U64(x)) => {
            crate::wire::lemma_fixed64_round_trip(x, rest);
        },
        (Type::SFixed64, ValueModel::I64(x)) => {
            crate::wire::lemma_fixed64_round_trip(x as u64, rest);
        },
        (Type::Double, ValueModel::F64(x)) => {
            crate::wire::lemma_fixed64_round_trip(x, rest);
        },
        (Type::String, ValueModel::String(_)) => {
            lemma_parse_scalar_payload_ld(ty, v, rest);
        },
        (Type::Bytes, ValueModel::Bytes(_)) => {
            lemma_parse_scalar_payload_ld(ty, v, rest);
        },
        _ => {
            assert(false);
        },
    }
}

/// Parsing the encoding of one tagged scalar occurrence yields its tag
/// number and its token, and consumes exactly the encoding.
#[verifier::rlimit(100)]
#[verifier::spinoff_prover]
pub proof fn lemma_parse_scalar_field_enc(f: FieldInfo, v: ValueModel, rest: Seq<u8>)
    requires
        f.number.wf(),
        f.ty != Type::Message,
        f.ty != Type::Group,
        crate::ser::spec_scalar_payload(f.ty, v) is Some,
        spec_scalar_fits(f.ty, v),
    ensures
        ({
            let p = crate::ser::spec_scalar_payload(f.ty, v)->0;
            let enc = crate::ser::spec_tag_bytes(f.number.spec_get(), f.ty.spec_wire_type()) + p;
            spec_parse_field(enc + rest) == Ok::<((i32, FieldValueModel), int), DecodeError>(
                ((f.number.spec_get(), spec_scalar_token(f.ty, v)), enc.len() as int),
            )
        }),
{
    let p = crate::ser::spec_scalar_payload(f.ty, v)->0;
    let wt = f.ty.spec_wire_type();
    let tagval = crate::wire::spec_encode_tag(f.number.spec_get(), wt);
    let tb = crate::wire::varint_enc(tagval);
    let s = (tb + p) + rest;
    assert(s =~= tb + (p + rest));
    crate::wire::lemma_varint_round_trip(tagval, p + rest);
    crate::wire::lemma_tag_round_trip(f.number, wt);
    assert(spec_parse_varint(s) == Ok::<(nat, int), DecodeError>((tagval as nat, tb.len() as int)));
    assert((tagval as nat) as u64 == tagval);
    assert(crate::wire::spec_parse_tag(s) == Ok::<((i32, WireType), int), DecodeError>(
        ((f.number.spec_get(), wt), tb.len() as int),
    ));
    let after_tag = s.skip(tb.len() as int);
    assert(after_tag =~= p + rest);
    lemma_parse_scalar_payload(f.ty, v, rest);
}

/// Parsing a length-prefixed body yields the body back.
proof fn lemma_parse_len_delimited(body: Seq<u8>, rest: Seq<u8>)
    requires
        body.len() <= u64::MAX,
    ensures
        crate::wire::spec_parse_bytes((crate::wire::varint_enc(body.len() as u64) + body) + rest)
            == Ok::<(Seq<u8>, int), DecodeError>(
            (body, (crate::wire::varint_enc(body.len() as u64).len() + body.len()) as int),
        ),
{
    let lb = crate::wire::varint_enc(body.len() as u64);
    let s = (lb + body) + rest;
    assert(s =~= lb + (body + rest));
    crate::wire::lemma_varint_round_trip(body.len() as u64, body + rest);
    assert(spec_parse_varint(s) == Ok::<(nat, int), DecodeError>(
        (body.len() as nat, lb.len() as int),
    ));
    assert(s.subrange(lb.len() as int, (lb.len() + body.len()) as int) =~= body);
}

/// A well-formed descriptor looks its own fields up by number.
pub proof fn lemma_lookup_self(m: MessageInfo, i: int)
    requires
        wf_message_info(m),
        0 <= i < m.fields@.len(),
    ensures
        spec_field_lookup(m, m.fields@[i].number.spec_get() as int, 0) == i,
{
    lemma_lookup_from(m, i, 0);
}

proof fn lemma_lookup_from(m: MessageInfo, i: int, j: int)
    requires
        wf_message_info(m),
        0 <= j <= i < m.fields@.len(),
    ensures
        spec_field_lookup(m, m.fields@[i].number.spec_get() as int, j) == i,
    decreases i - j,
{
    if j < i {
        assert(m.fields@[j].number.spec_get() != m.fields@[i].number.spec_get());
        lemma_lookup_from(m, i, j + 1);
    }
}


/// A field the flat round-trip law covers: a scalar outside every
/// oneof, or a repeated scalar, packed or not.
pub open spec fn spec_flat_field(f: FieldInfo) -> bool {
    &&& f.ty != Type::Message
    &&& f.ty != Type::Group
    &&& (f.cardinality == Cardinality::Repeated || f.oneof_index is None)
}

/// A slot the encoder will carry faithfully: a list of shaped elements
/// for a repeated field — empty included — and otherwise a shaped scalar
/// within machine limits that proto3 does not suppress.
pub open spec fn spec_flat_value(m: MessageInfo, vals: Seq<ValueModel>, j: int) -> bool {
    let f = m.fields@[j];
    if f.cardinality == Cardinality::Repeated {
        &&& vals[j] is List
        &&& forall|k: int|
            0 <= k < vals[j]->List_0.len() ==> (crate::ser::spec_scalar_payload(
                f.ty,
                #[trigger] vals[j]->List_0[k],
            ) is Some && spec_scalar_fits(f.ty, vals[j]->List_0[k]))
        &&& (f.packed && crate::ser::spec_is_packable(f.ty)
            ==> (crate::ser::spec_packed_payload(vals[j]->List_0, f.ty, f.name@, 0) is Ok
            && crate::ser::spec_packed_payload(vals[j]->List_0, f.ty, f.name@, 0)->Ok_0.len()
            <= u64::MAX))
    } else {
        &&& crate::ser::spec_scalar_payload(f.ty, vals[j]) is Some
        &&& spec_scalar_fits(f.ty, vals[j])
        &&& !(m.syntax == Syntax::Proto3 && crate::ser::spec_is_default(vals[j]))
    }
}

/// Where a field's occurrences land on a slot: a repeated field appends
/// its elements to what the slot held, a scalar last-wins.
pub open spec fn spec_landed(f: FieldInfo, a: ValueModel, v: ValueModel) -> ValueModel {
    if f.cardinality == Cardinality::Repeated {
        ValueModel::List(a->List_0 + v->List_0)
    } else {
        v
    }
}

/// The slots after the fields from `i` on have landed.
pub open spec fn spec_land(
    acc: Seq<ValueModel>,
    vals: Seq<ValueModel>,
    m: MessageInfo,
    i: int,
) -> Seq<ValueModel> {
    Seq::new(
        acc.len(),
        |j: int|
            if j >= i {
                spec_landed(m.fields@[j], acc[j], vals[j])
            } else {
                acc[j]
            },
    )
}

/// Decoding a packed payload gives back the elements it was packed from.
#[verifier::rlimit(100)]
#[verifier::spinoff_prover]
proof fn lemma_decode_packed_round_trip(elems: Seq<ValueModel>, ty: Type, name: Seq<char>, k: int)
    requires
        ty != Type::Message,
        ty != Type::Group,
        crate::ser::spec_is_packable(ty),
        0 <= k <= elems.len(),
        forall|x: int|
            0 <= x < elems.len() ==> (crate::ser::spec_scalar_payload(ty, #[trigger] elems[x])
                is Some && spec_scalar_fits(ty, elems[x])),
    ensures
        crate::ser::spec_packed_payload(elems, ty, name, k) is Ok,
        spec_decode_packed(crate::ser::spec_packed_payload(elems, ty, name, k)->Ok_0, ty, name)
            == Ok::<Seq<ValueModel>, ErrorModel>(elems.skip(k)),
    decreases elems.len() - k,
{
    if k >= elems.len() {
        assert(crate::ser::spec_packed_payload(elems, ty, name, k)->Ok_0 =~= Seq::<u8>::empty());
        assert(elems.skip(k) =~= Seq::<ValueModel>::empty());
    } else {
        let v = elems[k];
        let p = crate::ser::spec_scalar_payload(ty, v)->0;
        lemma_decode_packed_round_trip(elems, ty, name, k + 1);
        let rest = crate::ser::spec_packed_payload(elems, ty, name, k + 1)->Ok_0;
        let b = crate::ser::spec_packed_payload(elems, ty, name, k)->Ok_0;
        assert(b == p + rest);
        lemma_parse_scalar_payload(ty, v, rest);
        let token = spec_scalar_token(ty, v);
        lemma_scalar_token_round_trip(ty, v, name);
        // pull the underlying parser's verdict out of the wire-value parse
        match ty.spec_wire_type() {
            WireType::Varint => {
                match spec_parse_varint(b) {
                    Ok((u, n)) => {
                        crate::de::lemma_parse_varint_consumes(b, 0);
                        assert(n >= 1 && n <= b.len());
                        assert(b.skip(n) =~= rest);
                    },
                    Err(_) => {
                        assert(false);
                    },
                }
            },
            WireType::Fixed32 => {
                match spec_parse_fixed32(b) {
                    Ok((u, n)) => {
                        assert(b.skip(n) =~= rest);
                    },
                    Err(_) => {
                        assert(false);
                    },
                }
            },
            WireType::Fixed64 => {
                match spec_parse_fixed64(b) {
                    Ok((u, n)) => {
                        assert(b.skip(n) =~= rest);
                    },
                    Err(_) => {
                        assert(false);
                    },
                }
            },
            _ => {
                assert(false);
            },
        }
        assert(seq![v] + elems.skip(k + 1) =~= elems.skip(k));
    }
}

/// Parsing the encoding of one packed occurrence — the field's tag with
/// the length-delimited wire type, then the length-prefixed payload —
/// yields the payload token and consumes exactly the encoding.
#[verifier::rlimit(100)]
#[verifier::spinoff_prover]
proof fn lemma_parse_packed_field_enc(f: FieldInfo, payload: Seq<u8>, rest: Seq<u8>)
    requires
        f.number.wf(),
        payload.len() <= u64::MAX,
    ensures
        ({
            let enc = crate::ser::spec_tag_bytes(f.number.spec_get(), WireType::Bytes)
                + varint_enc_of_len(payload) + payload;
            spec_parse_field(enc + rest) == Ok::<((i32, FieldValueModel), int), DecodeError>(
                ((f.number.spec_get(), FieldValueModel::Bytes(payload)), enc.len() as int),
            )
        }),
{
    let lb = varint_enc_of_len(payload);
    let tagval = crate::wire::spec_encode_tag(f.number.spec_get(), WireType::Bytes);
    let tb = crate::wire::varint_enc(tagval);
    let s = (tb + lb + payload) + rest;
    assert(s =~= tb + ((lb + payload) + rest));
    crate::wire::lemma_varint_round_trip(tagval, (lb + payload) + rest);
    crate::wire::lemma_tag_round_trip(f.number, WireType::Bytes);
    assert(spec_parse_varint(s) == Ok::<(nat, int), DecodeError>((tagval as nat, tb.len() as int)));
    assert((tagval as nat) as u64 == tagval);
    assert(crate::wire::spec_parse_tag(s) == Ok::<((i32, WireType), int), DecodeError>(
        ((f.number.spec_get(), WireType::Bytes), tb.len() as int),
    ));
    let after_tag = s.skip(tb.len() as int);
    assert(after_tag =~= (lb + payload) + rest);
    lemma_parse_len_delimited(payload, rest);
}

/// The varint length prefix of a payload.
pub open spec fn varint_enc_of_len(payload: Seq<u8>) -> Seq<u8> {
    crate::wire::varint_enc(payload.len() as u64)
}

#[verifier::rlimit(100)]
#[verifier::spinoff_prover]
proof fn lemma_decode_scalar_elems(
    elems: Seq<ValueModel>,
    m: MessageInfo,
    i: int,
    k: int,
    fe: nat,
    fd: nat,
    rest: Seq<u8>,
    acc: Seq<ValueModel>,
    term: Option<int>,
)
    requires
        wf_message_info(m),
        0 <= i < m.fields@.len(),
        acc.len() == m.fields@.len(),
        spec_flat_field(m.fields@[i]),
        m.fields@[i].cardinality == Cardinality::Repeated,
        acc[i] is List,
        0 <= k <= elems.len(),
        forall|x: int|
            0 <= x < elems.len() ==> (crate::ser::spec_scalar_payload(
                m.fields@[i].ty,
                #[trigger] elems[x],
            ) is Some && spec_scalar_fits(m.fields@[i].ty, elems[x])),
    ensures
        crate::ser::spec_encode_elements(elems, m.fields@[i], k, fe) is Ok,
        ({
            let e = crate::ser::spec_encode_elements(elems, m.fields@[i], k, fe)->Ok_0;
            spec_decode_fields(e + rest, acc, m, term, fd) == (match spec_decode_fields(
                rest,
                acc.update(i, ValueModel::List(acc[i]->List_0 + elems.skip(k))),
                m,
                term,
                fd,
            ) {
                Ok((fvals, c)) => Ok::<(Seq<ValueModel>, int), ErrorModel>(
                    (fvals, e.len() + c),
                ),
                Err(er) => Err::<(Seq<ValueModel>, int), ErrorModel>(er),
            })
        }),
    decreases elems.len() - k,
{
    let f = m.fields@[i];
    if k >= elems.len() {
        let e = crate::ser::spec_encode_elements(elems, f, k, fe)->Ok_0;
        assert(e + rest =~= rest);
        assert(acc[i]->List_0 + elems.skip(k) =~= acc[i]->List_0);
        assert(acc.update(i, ValueModel::List(acc[i]->List_0 + elems.skip(k))) =~= acc);
        match spec_decode_fields(rest, acc, m, term, fd) {
            Ok((fvals, c)) => {},
            Err(_) => {},
        }
    } else {
        let v = elems[k];
        let p = crate::ser::spec_scalar_payload(f.ty, v)->0;
        let enc_k = crate::ser::spec_tag_bytes(f.number.spec_get(), f.ty.spec_wire_type()) + p;
        assert(crate::ser::spec_encode_single(f, v, fe) == Ok::<Seq<u8>, ErrorModel>(enc_k));
        let acc2 = acc.update(i, ValueModel::List(acc[i]->List_0.push(v)));
        lemma_decode_scalar_elems(elems, m, i, k + 1, fe, fd, rest, acc2, term);
        let e2 = crate::ser::spec_encode_elements(elems, f, k + 1, fe)->Ok_0;
        let e = crate::ser::spec_encode_elements(elems, f, k, fe)->Ok_0;
        assert(e == enc_k + e2);
        let s = e + rest;
        assert(s =~= enc_k + (e2 + rest));
        lemma_parse_scalar_field_enc(f, v, e2 + rest);
        let token = spec_scalar_token(f.ty, v);
        lemma_scalar_token_round_trip(f.ty, v, f.name@);
        assert(!(token is EndGroup) && !(token is StartGroup)) by {
            assert(spec_fv_wire_type(token) == f.ty.spec_wire_type());
        };
        let n = enc_k.len() as int;
        assert(n >= 1) by {
            crate::wire::lemma_varint_enc_chain(
                crate::wire::spec_encode_tag(f.number.spec_get(), f.ty.spec_wire_type()),
            );
        };
        lemma_df_token(s, acc, m, term, fd, f.number.spec_get(), token, n);
        lemma_lookup_self(m, i);
        assert(spec_apply_token(f.number.spec_get() as int, token, acc, m, fd) == Ok::<
            Seq<ValueModel>,
            ErrorModel,
        >(acc2));
        assert(s.skip(n) =~= e2 + rest);
        assert(acc2[i]->List_0 + elems.skip(k + 1) =~= acc[i]->List_0 + elems.skip(k));
        assert(acc2.update(i, ValueModel::List(acc2[i]->List_0 + elems.skip(k + 1)))
            =~= acc.update(i, ValueModel::List(acc[i]->List_0 + elems.skip(k))));
        match spec_decode_fields(
            rest,
            acc.update(i, ValueModel::List(acc[i]->List_0 + elems.skip(k))),
            m,
            term,
            fd,
        ) {
            Ok((fvals, c)) => {},
            Err(_) => {},
        }
    }
}

#[verifier::rlimit(100)]
#[verifier::spinoff_prover]
proof fn lemma_decode_flat_fields(
    vals: Seq<ValueModel>,
    m: MessageInfo,
    i: int,
    fe: nat,
    fd: nat,
    rest: Seq<u8>,
    acc: Seq<ValueModel>,
)
    requires
        wf_message_info(m),
        vals.len() == m.fields@.len(),
        acc.len() == vals.len(),
        0 <= i <= m.fields@.len(),
        forall|j: int| 0 <= j < m.fields@.len() ==> spec_flat_field(#[trigger] m.fields@[j]),
        forall|j: int| 0 <= j < m.fields@.len() ==> spec_flat_value(m, vals, j),
        forall|j: int|
            0 <= j < m.fields@.len() && (#[trigger] m.fields@[j]).cardinality
                == Cardinality::Repeated ==> acc[j] is List,
    ensures
        crate::ser::spec_encode_fields(vals, m, i, fe) is Ok,
        ({
            let e = crate::ser::spec_encode_fields(vals, m, i, fe)->Ok_0;
            spec_decode_fields(e + rest, acc, m, None, fd) == (match spec_decode_fields(
                rest,
                spec_land(acc, vals, m, i),
                m,
                None,
                fd,
            ) {
                Ok((fvals, c)) => Ok::<(Seq<ValueModel>, int), ErrorModel>(
                    (fvals, e.len() + c),
                ),
                Err(er) => Err::<(Seq<ValueModel>, int), ErrorModel>(er),
            })
        }),
    decreases m.fields@.len() - i,
{
    if i >= m.fields@.len() {
        let e = crate::ser::spec_encode_fields(vals, m, i, fe)->Ok_0;
        assert(e + rest =~= rest);
        assert(spec_land(acc, vals, m, i) =~= acc);
        match spec_decode_fields(rest, acc, m, None, fd) {
            Ok((fvals, c)) => {},
            Err(_) => {},
        }
    } else {
        let f = m.fields@[i];
        let v = vals[i];
        assert(spec_flat_field(f));
        assert(spec_flat_value(m, vals, i));
        if f.cardinality == Cardinality::Repeated {
            let elems = v->List_0;
            let acc2 = acc.update(i, spec_landed(f, acc[i], v));
            lemma_decode_flat_fields(vals, m, i + 1, fe, fd, rest, acc2);
            let e2 = crate::ser::spec_encode_fields(vals, m, i + 1, fe)->Ok_0;
            assert(spec_land(acc2, vals, m, i + 1) =~= spec_land(acc, vals, m, i));
            if elems.len() == 0 {
                assert(crate::ser::spec_encode_field(f, v, m.syntax, fe) == Ok::<
                    Seq<u8>,
                    ErrorModel,
                >(Seq::<u8>::empty()));
                let e = crate::ser::spec_encode_fields(vals, m, i, fe)->Ok_0;
                assert(e =~= e2);
                assert(acc[i]->List_0 + elems =~= acc[i]->List_0);
                assert(acc2 =~= acc);
                match spec_decode_fields(rest, spec_land(acc, vals, m, i), m, None, fd) {
                    Ok((fvals, c)) => {},
                    Err(_) => {},
                }
            } else if f.packed && crate::ser::spec_is_packable(f.ty) {
                // the field's occurrences as one length-delimited payload
                lemma_decode_packed_round_trip(elems, f.ty, f.name@, 0);
                let pl = crate::ser::spec_packed_payload(elems, f.ty, f.name@, 0)->Ok_0;
                let enc_i = crate::ser::spec_tag_bytes(f.number.spec_get(), WireType::Bytes)
                    + varint_enc_of_len(pl) + pl;
                assert(crate::ser::spec_encode_field(f, v, m.syntax, fe) == Ok::<
                    Seq<u8>,
                    ErrorModel,
                >(enc_i));
                let e = crate::ser::spec_encode_fields(vals, m, i, fe)->Ok_0;
                assert(e == enc_i + e2);
                let s = e + rest;
                assert(s =~= enc_i + (e2 + rest));
                lemma_parse_packed_field_enc(f, pl, e2 + rest);
                let token = FieldValueModel::Bytes(pl);
                let n = enc_i.len() as int;
                assert(n >= 1) by {
                    crate::wire::lemma_varint_enc_chain(
                        crate::wire::spec_encode_tag(f.number.spec_get(), WireType::Bytes),
                    );
                };
                lemma_df_token(s, acc, m, None, fd, f.number.spec_get(), token, n);
                lemma_lookup_self(m, i);
                assert(elems.skip(0) =~= elems);
                assert(spec_apply_token(f.number.spec_get() as int, token, acc, m, fd) == Ok::<
                    Seq<ValueModel>,
                    ErrorModel,
                >(acc2));
                assert(s.skip(n) =~= e2 + rest);
                match spec_decode_fields(rest, spec_land(acc, vals, m, i), m, None, fd) {
                    Ok((fvals, c)) => {},
                    Err(_) => {},
                }
            } else {
                // the field's occurrences, one tagged element each
                lemma_decode_scalar_elems(elems, m, i, 0, fe, fd, e2 + rest, acc, None);
                let ee = crate::ser::spec_encode_elements(elems, f, 0, fe)->Ok_0;
                assert(crate::ser::spec_encode_field(f, v, m.syntax, fe) == Ok::<
                    Seq<u8>,
                    ErrorModel,
                >(ee));
                let e = crate::ser::spec_encode_fields(vals, m, i, fe)->Ok_0;
                assert(e == ee + e2);
                assert(e + rest =~= ee + (e2 + rest));
                assert(elems.skip(0) =~= elems);
                assert(acc.update(i, ValueModel::List(acc[i]->List_0 + elems.skip(0))) =~= acc2);
                match spec_decode_fields(rest, spec_land(acc, vals, m, i), m, None, fd) {
                    Ok((fvals, c)) => {},
                    Err(_) => {},
                }
            }
        } else {
            let p = crate::ser::spec_scalar_payload(f.ty, v)->0;
            let enc_i = crate::ser::spec_tag_bytes(f.number.spec_get(), f.ty.spec_wire_type()) + p;
            assert(v != ValueModel::Unset);
            assert(crate::ser::spec_encode_field(f, v, m.syntax, fe) == Ok::<Seq<u8>, ErrorModel>(
                enc_i,
            ));
            let acc2 = acc.update(i, v);
            lemma_decode_flat_fields(vals, m, i + 1, fe, fd, rest, acc2);
            let e2 = crate::ser::spec_encode_fields(vals, m, i + 1, fe)->Ok_0;
            let e = crate::ser::spec_encode_fields(vals, m, i, fe)->Ok_0;
            assert(e == enc_i + e2);
            let s = e + rest;
            assert(s =~= enc_i + (e2 + rest));
            lemma_parse_scalar_field_enc(f, v, e2 + rest);
            let token = spec_scalar_token(f.ty, v);
            lemma_scalar_token_round_trip(f.ty, v, f.name@);
            assert(!(token is EndGroup) && !(token is StartGroup)) by {
                assert(spec_fv_wire_type(token) == f.ty.spec_wire_type());
            };
            let n = enc_i.len() as int;
            assert(n >= 1) by {
                crate::wire::lemma_varint_enc_chain(
                    crate::wire::spec_encode_tag(f.number.spec_get(), f.ty.spec_wire_type()),
                );
            };
            lemma_df_token(s, acc, m, None, fd, f.number.spec_get(), token, n);
            lemma_lookup_self(m, i);
            assert(spec_apply_token(f.number.spec_get() as int, token, acc, m, fd) == Ok::<
                Seq<ValueModel>,
                ErrorModel,
            >(acc2));
            assert(s.skip(n) =~= e2 + rest);
            assert(spec_land(acc2, vals, m, i + 1) =~= spec_land(acc, vals, m, i));
            match spec_decode_fields(rest, spec_land(acc, vals, m, i), m, None, fd) {
                Ok((fvals, c)) => {},
                Err(_) => {},
            }
        }
    }
}

proof fn lemma_no_missing_required(m: MessageInfo, vals: Seq<ValueModel>, k: int)
    requires
        vals.len() == m.fields@.len(),
        forall|j: int| 0 <= j < vals.len() ==> #[trigger] vals[j] != ValueModel::Unset,
    ensures
        spec_first_missing_required(m, vals, k) is None,
    decreases m.fields@.len() - k,
{
    if 0 <= k < m.fields@.len() {
        lemma_no_missing_required(m, vals, k + 1);
    }
}

/// Encode/decode round trip on populated fields: a message of scalar
/// fields — singular or repeated, packed or not, every scalar shaped and
/// no singular one suppressed as a proto3 default — decodes from its own
/// encoding to exactly itself.
pub proof fn lemma_flat_round_trip(vals: Seq<ValueModel>, m: MessageInfo, fe: nat, fd: nat)
    requires
        wf_message_info(m),
        vals.len() == m.fields@.len(),
        forall|j: int| 0 <= j < m.fields@.len() ==> spec_flat_field(#[trigger] m.fields@[j]),
        forall|j: int| 0 <= j < m.fields@.len() ==> spec_flat_value(m, vals, j),
    ensures
        crate::ser::spec_encode_message(vals, m, fe) is Ok,
        spec_decode_message(crate::ser::spec_encode_message(vals, m, fe)->Ok_0, m, fd) == Ok::<
            Seq<ValueModel>,
            ErrorModel,
        >(vals),
{
    let init = spec_init_values(m);
    assert(forall|j: int|
        0 <= j < m.fields@.len() && (#[trigger] m.fields@[j]).cardinality == Cardinality::Repeated
            ==> init[j] is List);
    lemma_decode_flat_fields(vals, m, 0, fe, fd, Seq::empty(), init);
    let e = crate::ser::spec_encode_fields(vals, m, 0, fe)->Ok_0;
    assert(e + Seq::<u8>::empty() =~= e);
    lemma_df_end(Seq::empty(), spec_land(init, vals, m, 0), m, None, fd);
    assert(spec_land(init, vals, m, 0) =~= vals) by {
        assert forall|j: int| 0 <= j < vals.len() implies spec_land(init, vals, m, 0)[j]
            == vals[j] by {
            assert(spec_flat_value(m, vals, j));
            if m.fields@[j].cardinality == Cardinality::Repeated {
                assert(init[j] == ValueModel::List(Seq::<ValueModel>::empty()));
                assert(init[j]->List_0 + vals[j]->List_0 =~= vals[j]->List_0);
            }
        }
    };
    lemma_dm_unfold(e, m, fd);
    assert(forall|j: int| 0 <= j < vals.len() ==> #[trigger] vals[j] != ValueModel::Unset) by {
        assert forall|j: int| 0 <= j < vals.len() implies #[trigger] vals[j]
            != ValueModel::Unset by {
            assert(spec_flat_value(m, vals, j));
        }
    };
    lemma_no_missing_required(m, vals, 0);
}

/// Last-wins: for a message of scalar fields, two encodings
/// concatenated decode to the second message's values.
pub proof fn lemma_scalar_last_wins(
    vals1: Seq<ValueModel>,
    vals2: Seq<ValueModel>,
    m: MessageInfo,
    fe: nat,
    fd: nat,
)
    requires
        wf_message_info(m),
        vals1.len() == m.fields@.len(),
        vals2.len() == m.fields@.len(),
        forall|j: int|
            0 <= j < m.fields@.len() ==> spec_flat_field(#[trigger] m.fields@[j])
                && m.fields@[j].cardinality != Cardinality::Repeated,
        forall|j: int| 0 <= j < m.fields@.len() ==> spec_flat_value(m, vals1, j),
        forall|j: int| 0 <= j < m.fields@.len() ==> spec_flat_value(m, vals2, j),
    ensures
        crate::ser::spec_encode_message(vals1, m, fe) is Ok,
        crate::ser::spec_encode_message(vals2, m, fe) is Ok,
        spec_decode_message(
            crate::ser::spec_encode_message(vals1, m, fe)->Ok_0 + crate::ser::spec_encode_message(
                vals2,
                m,
                fe,
            )->Ok_0,
            m,
            fd,
        ) == Ok::<Seq<ValueModel>, ErrorModel>(vals2),
{
    let init = spec_init_values(m);
    let e1 = crate::ser::spec_encode_fields(vals1, m, 0, fe)->Ok_0;
    let e2 = crate::ser::spec_encode_fields(vals2, m, 0, fe)->Ok_0;
    lemma_decode_flat_fields(vals1, m, 0, fe, fd, e2, init);
    assert(spec_land(init, vals1, m, 0) =~= vals1) by {
        assert forall|j: int| 0 <= j < vals1.len() implies spec_land(init, vals1, m, 0)[j]
            == vals1[j] by {
            assert(spec_flat_value(m, vals1, j));
        }
    };
    lemma_decode_flat_fields(vals2, m, 0, fe, fd, Seq::empty(), vals1);
    assert(e2 + Seq::<u8>::empty() =~= e2);
    lemma_df_end(Seq::empty(), spec_land(vals1, vals2, m, 0), m, None, fd);
    assert(spec_land(vals1, vals2, m, 0) =~= vals2) by {
        assert forall|j: int| 0 <= j < vals2.len() implies spec_land(vals1, vals2, m, 0)[j]
            == vals2[j] by {
            assert(spec_flat_value(m, vals2, j));
        }
    };
    lemma_dm_unfold(e1 + e2, m, fd);
    assert(forall|j: int| 0 <= j < vals2.len() ==> #[trigger] vals2[j] != ValueModel::Unset) by {
        assert forall|j: int| 0 <= j < vals2.len() implies #[trigger] vals2[j]
            != ValueModel::Unset by {
            assert(spec_flat_value(m, vals2, j));
        }
    };
    lemma_no_missing_required(m, vals2, 0);
}

} // verus!
