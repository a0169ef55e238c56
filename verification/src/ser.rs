use vstd::prelude::*;
use vstd::utf8::encode_utf8;
use crate::error::{Error, ErrorModel};
use crate::info::{FieldInfo, MessageInfo, Syntax, Type, wf_field_info, wf_message_info};
use crate::value::{Value, ValueModel, values_view, pairs_view, lemma_values_view_index,
    lemma_pairs_view_index};
use crate::wire::{WireType, varint_enc, le32_enc, le64_enc, spec_encode_tag, spec_zig_zag_enc,
    put_varint, put_fixed32, put_fixed64, put_bytes, put_tag, encode_zig_zag};

verus! {

/// The deepest message or group nesting the engine will walk.
pub const RECURSION_LIMIT: u32 = 100;

/// The zero of each scalar logical type, as proto3 default suppression
/// sees it; containers and messages are never suppressed by value.
pub open spec fn spec_is_default(v: ValueModel) -> bool {
    match v {
        ValueModel::Bool(b) => b == false,
        ValueModel::I32(x) => x == 0,
        ValueModel::I64(x) => x == 0,
        ValueModel::U32(x) => x == 0,
        ValueModel::U64(x) => x == 0,
        ValueModel::F32(x) => x == 0,
        ValueModel::F64(x) => x == 0,
        ValueModel::Enum(x) => x == 0,
        ValueModel::String(s) => s.len() == 0,
        ValueModel::Bytes(b) => b.len() == 0,
        _ => false,
    }
}

/// Whether elements of this logical type may travel packed.
pub open spec fn spec_is_packable(ty: Type) -> bool {
    ty.spec_wire_type() != WireType::Bytes && ty.spec_wire_type() != WireType::StartGroup
}

/// The bytes of the tag a field's occurrences carry.
pub open spec fn spec_tag_bytes(n: i32, w: WireType) -> Seq<u8> {
    varint_enc(spec_encode_tag(n, w))
}

/// The tagless wire payload of one scalar occurrence, or `None` when the
/// value's shape does not fit the logical type.  Signed 32-bit varint
/// families sign-extend; zig-zag families interleave first.
pub open spec fn spec_scalar_payload(ty: Type, v: ValueModel) -> Option<Seq<u8>> {
    match (ty, v) {
        (Type::Int32, ValueModel::I32(x)) => Some(varint_enc(x as i64 as u64)),
        (Type::Int64, ValueModel::I64(x)) => Some(varint_enc(x as u64)),
        (Type::Uint32, ValueModel::U32(x)) => Some(varint_enc(x as u64)),
        (Type::Uint64, ValueModel::U64(x)) => Some(varint_enc(x)),
        (Type::SInt32, ValueModel::I32(x)) => Some(varint_enc(spec_zig_zag_enc(x as i64))),
        (Type::SInt64, ValueModel::I64(x)) => Some(varint_enc(spec_zig_zag_enc(x))),
        (Type::Bool, ValueModel::Bool(b)) => Some(
            varint_enc(
                if b {
                    1
                } else {
                    0
                },
            ),
        ),
        (Type::Enum, ValueModel::Enum(x)) => Some(varint_enc(x as i64 as u64)),
        (Type::Fixed32, ValueModel::U32(x)) => Some(le32_enc(x)),
        (Type::SFixed32, ValueModel::I32(x)) => Some(le32_enc(x as u32)),
        (Type::Float, ValueModel::F32(x)) => Some(le32_enc(x)),
        (Type::Fixed64, ValueModel::U64(x)) => Some(le64_enc(x)),
        (Type::SFixed64, ValueModel::I64(x)) => Some(le64_enc(x as u64)),
        (Type::Double, ValueModel::F64(x)) => Some(le64_enc(x)),
        (Type::String, ValueModel::String(s)) => Some(
            varint_enc(encode_utf8(s).len() as u64) + encode_utf8(s),
        ),
        (Type::Bytes, ValueModel::Bytes(b)) => Some(varint_enc(b.len() as u64) + b),
        _ => None,
    }
}

/// Whether a field is a synthetic map field: a repeated message whose
/// child descriptor is marked as a map entry.
pub open spec fn spec_is_map_field(f: FieldInfo) -> bool {
    f.ty == Type::Message && f.message_info is Some && (*f.message_info->0).is_map
}

/// The concatenated tagless payloads of a packed repeated field.
pub open spec fn spec_packed_payload(elems: Seq<ValueModel>, ty: Type, name: Seq<char>, j: int) -> Result<
    Seq<u8>,
    ErrorModel,
>
    decreases elems.len() - j,
{
    if j < 0 || j >= elems.len() {
        Ok(Seq::empty())
    } else {
        match spec_scalar_payload(ty, elems[j]) {
            Some(p) => match spec_packed_payload(elems, ty, name, j + 1) {
                Ok(rest) => Ok(p + rest),
                Err(e) => Err(e),
            },
            None => Err(ErrorModel::TypeMismatch(name)),
        }
    }
}

/// The encoding of one tagged occurrence of a field: for a message, the
/// tag, a length prefix and the recursively encoded body; for a group,
/// the body between its bracketing tags; for a scalar, the tag and its
/// payload.  Never suppressed.
pub open spec fn spec_encode_single(f: FieldInfo, v: ValueModel, fuel: nat) -> Result<
    Seq<u8>,
    ErrorModel,
>
    decreases fuel, 0int, 0int, 0int,
{
    if f.ty == Type::Message {
        match f.message_info {
            Some(child) => match v {
                ValueModel::Message(vals) => if fuel == 0 {
                    Err(ErrorModel::RecursionLimit)
                } else {
                    match spec_encode_message(vals, *child, (fuel - 1) as nat) {
                        Ok(body) => Ok(
                            spec_tag_bytes(f.number.spec_get(), WireType::Bytes) + varint_enc(
                                body.len() as u64,
                            ) + body,
                        ),
                        Err(e) => Err(e),
                    }
                },
                _ => Err(ErrorModel::TypeMismatch(f.name@)),
            },
            None => Err(ErrorModel::Message("message descriptor not found"@)),
        }
    } else if f.ty == Type::Group {
        match f.message_info {
            Some(child) => match v {
                ValueModel::Message(vals) => if fuel == 0 {
                    Err(ErrorModel::RecursionLimit)
                } else {
                    match spec_encode_message(vals, *child, (fuel - 1) as nat) {
                        Ok(body) => Ok(
                            spec_tag_bytes(f.number.spec_get(), WireType::StartGroup) + body
                                + spec_tag_bytes(f.number.spec_get(), WireType::EndGroup),
                        ),
                        Err(e) => Err(e),
                    }
                },
                _ => Err(ErrorModel::TypeMismatch(f.name@)),
            },
            None => Err(ErrorModel::Message("message descriptor not found"@)),
        }
    } else {
        match spec_scalar_payload(f.ty, v) {
            Some(p) => Ok(spec_tag_bytes(f.number.spec_get(), f.ty.spec_wire_type()) + p),
            None => Err(ErrorModel::TypeMismatch(f.name@)),
        }
    }
}

/// The concatenated encodings of the elements of an unpacked repeated
/// field, one tagged occurrence each, in order.
pub open spec fn spec_encode_elements(elems: Seq<ValueModel>, f: FieldInfo, j: int, fuel: nat) -> Result<
    Seq<u8>,
    ErrorModel,
>
    decreases fuel, 1int, 0int, elems.len() - j,
{
    if j < 0 || j >= elems.len() {
        Ok(Seq::empty())
    } else {
        match spec_encode_single(f, elems[j], fuel) {
            Ok(b) => match spec_encode_elements(elems, f, j + 1, fuel) {
                Ok(rest) => Ok(b + rest),
                Err(e) => Err(e),
            },
            Err(e) => Err(e),
        }
    }
}

/// The concatenated encodings of a map field's entries: each entry is one
/// synthetic length-delimited message holding key field 1 then value
/// field 2, in entry order.
pub open spec fn spec_encode_entries(
    entries: Seq<(ValueModel, ValueModel)>,
    f: FieldInfo,
    child: MessageInfo,
    j: int,
    fuel: nat,
) -> Result<Seq<u8>, ErrorModel>
    decreases fuel, 1int, 0int, entries.len() - j,
{
    if j < 0 || j >= entries.len() {
        Ok(Seq::empty())
    } else if child.fields@.len() < 2 {
        Err(ErrorModel::Message("key field for map not found"@))
    } else {
        match spec_encode_single(child.fields@[0], entries[j].0, fuel) {
            Ok(kb) => match spec_encode_single(child.fields@[1], entries[j].1, fuel) {
                Ok(vb) => match spec_encode_entries(entries, f, child, j + 1, fuel) {
                    Ok(rest) => Ok(
                        spec_tag_bytes(f.number.spec_get(), WireType::Bytes) + varint_enc(
                            (kb + vb).len() as u64,
                        ) + kb + vb + rest,
                    ),
                    Err(e) => Err(e),
                },
                Err(e) => Err(e),
            },
            Err(e) => Err(e),
        }
    }
}

/// The contribution of one field of a message: nothing for an absent
/// field, nothing for a proto3 scalar at its default outside a oneof,
/// entry encodings for a map, element encodings for a repeated field —
/// packed behind one length prefix when the descriptor says so and the
/// type can travel packed — and one tagged occurrence otherwise.
pub open spec fn spec_encode_field(f: FieldInfo, v: ValueModel, syntax: Syntax, fuel: nat) -> Result<
    Seq<u8>,
    ErrorModel,
>
    decreases fuel, 1int, 1int, 0int,
{
    if v == ValueModel::Unset {
        Ok(Seq::empty())
    } else if f.cardinality == crate::info::Cardinality::Repeated {
        if spec_is_map_field(f) {
            match v {
                ValueModel::Dict(entries) => spec_encode_entries(
                    entries,
                    f,
                    *f.message_info->0,
                    0,
                    fuel,
                ),
                _ => Err(ErrorModel::TypeMismatch(f.name@)),
            }
        } else {
            match v {
                ValueModel::List(elems) => if elems.len() == 0 {
                    Ok(Seq::empty())
                } else if f.packed && spec_is_packable(f.ty) {
                    match spec_packed_payload(elems, f.ty, f.name@, 0) {
                        Ok(p) => Ok(
                            spec_tag_bytes(f.number.spec_get(), WireType::Bytes) + varint_enc(
                                p.len() as u64,
                            ) + p,
                        ),
                        Err(e) => Err(e),
                    }
                } else {
                    spec_encode_elements(elems, f, 0, fuel)
                },
                _ => Err(ErrorModel::TypeMismatch(f.name@)),
            }
        }
    } else if syntax == Syntax::Proto3 && f.oneof_index is None && spec_is_default(v) {
        Ok(Seq::empty())
    } else {
        spec_encode_single(f, v, fuel)
    }
}

/// The concatenated contributions of the fields from index `i` on, in
/// descriptor order.
pub open spec fn spec_encode_fields(vals: Seq<ValueModel>, m: MessageInfo, i: int, fuel: nat) -> Result<
    Seq<u8>,
    ErrorModel,
>
    decreases fuel, 2int, m.fields@.len() - i, 0int,
{
    if i < 0 || i >= m.fields@.len() {
        Ok(Seq::empty())
    } else {
        match spec_encode_field(m.fields@[i], vals[i], m.syntax, fuel) {
            Ok(b) => match spec_encode_fields(vals, m, i + 1, fuel) {
                Ok(rest) => Ok(b + rest),
                Err(e) => Err(e),
            },
            Err(e) => Err(e),
        }
    }
}

/// The wire encoding of a message value under its descriptor: one entry
/// per field, walked in descriptor order.
pub open spec fn spec_encode_message(vals: Seq<ValueModel>, m: MessageInfo, fuel: nat) -> Result<
    Seq<u8>,
    ErrorModel,
>
    decreases fuel, 3int, 0int, 0int,
{
    if vals.len() != m.fields@.len() {
        Err(ErrorModel::Message("field descriptor not found"@))
    } else {
        spec_encode_fields(vals, m, 0, fuel)
    }
}

/// The wire encoding of a top-level value, which must be a message.
pub open spec fn spec_encode(v: ValueModel, m: MessageInfo, fuel: nat) -> Result<
    Seq<u8>,
    ErrorModel,
> {
    match v {
        ValueModel::Message(vals) => spec_encode_message(vals, m, fuel),
        _ => Err(ErrorModel::TypeMismatch(m.name@)),
    }
}


/// Appends every byte of `src` to `dst`.
fn extend_bytes(dst: &mut Vec<u8>, src: &Vec<u8>)
    ensures
        final(dst)@ == old(dst)@ + src@,
{
    let ghost orig = dst@;
    let mut i: usize = 0;
    #[verifier::loop_isolation(false)]
    while i < src.len()
        invariant
            0 <= i <= src@.len(),
            dst@ == orig + src@.subrange(0, i as int),
        decreases src@.len() - i,
    {
        dst.push(src[i]);
        i += 1;
        proof {
            assert(dst@ =~= orig + src@.subrange(0, i as int));
        }
    }
    proof {
        assert(src@.subrange(0, src@.len() as int) =~= src@);
    }
}

/// Appends the tagless payload of one scalar occurrence.
fn encode_scalar_payload(buf: &mut Vec<u8>, f: &FieldInfo, v: &Value) -> (r: Result<(), Error>)
    ensures
        match r {
            Ok(_) => spec_scalar_payload(f.ty, v@) is Some && final(buf)@ == old(buf)@
                + spec_scalar_payload(f.ty, v@)->0,
            Err(e) => spec_scalar_payload(f.ty, v@) is None && e@ == ErrorModel::TypeMismatch(
                f.name@,
            ) && final(buf)@ == old(buf)@,
        },
{
    match (f.ty, v) {
        (Type::Int32, Value::I32(x)) => {
            put_varint(buf, *x as i64 as u64);
            Ok(())
        },
        (Type::Int64, Value::I64(x)) => {
            put_varint(buf, *x as u64);
            Ok(())
        },
        (Type::Uint32, Value::U32(x)) => {
            put_varint(buf, *x as u64);
            Ok(())
        },
        (Type::Uint64, Value::U64(x)) => {
            put_varint(buf, *x);
            Ok(())
        },
        (Type::SInt32, Value::I32(x)) => {
            put_varint(buf, encode_zig_zag(*x as i64));
            Ok(())
        },
        (Type::SInt64, Value::I64(x)) => {
            put_varint(buf, encode_zig_zag(*x));
            Ok(())
        },
        (Type::Bool, Value::Bool(b)) => {
            put_varint(
                buf,
                if *b {
                    1
                } else {
                    0
                },
            );
            Ok(())
        },
        (Type::Enum, Value::Enum(x)) => {
            put_varint(buf, *x as i64 as u64);
            Ok(())
        },
        (Type::Fixed32, Value::U32(x)) => {
            put_fixed32(buf, *x);
            Ok(())
        },
        (Type::SFixed32, Value::I32(x)) => {
            put_fixed32(buf, *x as u32);
            Ok(())
        },
        (Type::Float, Value::F32(x)) => {
            put_fixed32(buf, *x);
            Ok(())
        },
        (Type::Fixed64, Value::U64(x)) => {
            put_fixed64(buf, *x);
            Ok(())
        },
        (Type::SFixed64, Value::I64(x)) => {
            put_fixed64(buf, *x as u64);
            Ok(())
        },
        (Type::Double, Value::F64(x)) => {
            put_fixed64(buf, *x);
            Ok(())
        },
        (Type::String, Value::String(st)) => {
            put_bytes(buf, st.as_str().as_bytes());
            Ok(())
        },
        (Type::Bytes, Value::Bytes(b)) => {
            put_bytes(buf, b.as_slice());
            Ok(())
        },
        _ => Err(Error::TypeMismatch(f.name.clone())),
    }
}

/// Appends one tagged occurrence of a field; never suppresses.
#[verifier::rlimit(60)]
fn encode_single(buf: &mut Vec<u8>, f: &FieldInfo, v: &Value, fuel: u32) -> (r: Result<(), Error>)
    requires
        wf_field_info(*f),
    ensures
        match r {
            Ok(_) => spec_encode_single(*f, v@, fuel as nat) is Ok && final(buf)@ == old(buf)@
                + spec_encode_single(*f, v@, fuel as nat)->Ok_0,
            Err(e) => spec_encode_single(*f, v@, fuel as nat) == Err::<Seq<u8>, ErrorModel>(e@)
                && old(buf)@.is_prefix_of(final(buf)@),
        },
    decreases fuel, 0int, 0int, 0int,
{
    if matches!(f.ty, Type::Message) || matches!(f.ty, Type::Group) {
        let child = match &f.message_info {
            Some(c) => c,
            None => {
                return Err(Error::Message("message descriptor not found".to_owned()));
            },
        };
        let vals = match v {
            Value::Message(vals) => vals,
            _ => {
                return Err(Error::TypeMismatch(f.name.clone()));
            },
        };
        if fuel == 0 {
            return Err(Error::RecursionLimit);
        }
        let mut body: Vec<u8> = Vec::new();
        match encode_message(&mut body, vals, child, fuel - 1) {
            Ok(_) => {},
            Err(e) => {
                return Err(e);
            },
        }
        if matches!(f.ty, Type::Message) {
            put_tag(buf, f.number, WireType::Bytes);
            put_varint(buf, body.len() as u64);
            extend_bytes(buf, &body);
            proof {
                assert(final(buf)@ =~= old(buf)@ + (spec_tag_bytes(
                    f.number.spec_get(),
                    WireType::Bytes,
                ) + varint_enc(body@.len() as u64) + body@));
            }
        } else {
            put_tag(buf, f.number, WireType::StartGroup);
            extend_bytes(buf, &body);
            put_tag(buf, f.number, WireType::EndGroup);
            proof {
                assert(final(buf)@ =~= old(buf)@ + (spec_tag_bytes(
                    f.number.spec_get(),
                    WireType::StartGroup,
                ) + body@ + spec_tag_bytes(f.number.spec_get(), WireType::EndGroup)));
            }
        }
        Ok(())
    } else {
        let ghost before = buf@;
        put_tag(buf, f.number, f.ty.wire_type());
        match encode_scalar_payload(buf, f, v) {
            Ok(_) => {
                proof {
                    assert(final(buf)@ =~= before + (spec_tag_bytes(
                        f.number.spec_get(),
                        f.ty.spec_wire_type(),
                    ) + spec_scalar_payload(f.ty, v@)->0));
                }
                Ok(())
            },
            Err(e) => Err(e),
        }
    }
}

/// Appends the elements of an unpacked repeated field, one tagged
/// occurrence each.
fn encode_elements(buf: &mut Vec<u8>, elems: &Vec<Value>, f: &FieldInfo, fuel: u32) -> (r: Result<
    (),
    Error,
>)
    requires
        wf_field_info(*f),
    ensures
        match r {
            Ok(_) => spec_encode_elements(values_view(elems@), *f, 0, fuel as nat) is Ok
                && final(buf)@ == old(buf)@ + spec_encode_elements(
                values_view(elems@),
                *f,
                0,
                fuel as nat,
            )->Ok_0,
            Err(e) => spec_encode_elements(values_view(elems@), *f, 0, fuel as nat) == Err::<
                Seq<u8>,
                ErrorModel,
            >(e@) && old(buf)@.is_prefix_of(final(buf)@),
        },
    decreases fuel, 1int, 0int, 0int,
{
    let ghost ev = values_view(elems@);
    proof {
        lemma_values_view_index(elems@);
    }
    let ghost orig = buf@;
    let mut j: usize = 0;
    #[verifier::loop_isolation(false)]
    while j < elems.len()
        invariant
            0 <= j <= elems@.len(),
            orig.is_prefix_of(buf@),
            match spec_encode_elements(ev, *f, j as int, fuel as nat) {
                Ok(rest) => spec_encode_elements(ev, *f, 0, fuel as nat) == Ok::<
                    Seq<u8>,
                    ErrorModel,
                >(buf@.skip(orig.len() as int) + rest),
                Err(e) => spec_encode_elements(ev, *f, 0, fuel as nat) == Err::<
                    Seq<u8>,
                    ErrorModel,
                >(e),
            },
        decreases elems@.len() - j,
    {
        let ghost w = buf@.skip(orig.len() as int);
        match encode_single(buf, f, &elems[j], fuel) {
            Ok(_) => {},
            Err(e) => {
                return Err(e);
            },
        }
        proof {
            let b = spec_encode_single(*f, ev[j as int], fuel as nat)->Ok_0;
            assert(buf@.skip(orig.len() as int) =~= w + b);
            match spec_encode_elements(ev, *f, j + 1, fuel as nat) {
                Ok(rest) => {
                    assert((w + b) + rest =~= w + (b + rest));
                },
                Err(_) => {},
            }
        }
        j += 1;
    }
    proof {
        assert(buf@ =~= orig + buf@.skip(orig.len() as int));
        match spec_encode_elements(ev, *f, elems@.len() as int, fuel as nat) {
            Ok(rest) => {
                assert(buf@.skip(orig.len() as int) + rest =~= buf@.skip(orig.len() as int));
            },
            Err(_) => {},
        }
    }
    Ok(())
}

/// Appends the concatenated tagless payloads of a packed field into `buf`.
fn encode_packed_payload(buf: &mut Vec<u8>, elems: &Vec<Value>, f: &FieldInfo) -> (r: Result<
    (),
    Error,
>)
    ensures
        match r {
            Ok(_) => spec_packed_payload(values_view(elems@), f.ty, f.name@, 0) is Ok
                && final(buf)@ == old(buf)@ + spec_packed_payload(
                values_view(elems@),
                f.ty,
                f.name@,
                0,
            )->Ok_0,
            Err(e) => spec_packed_payload(values_view(elems@), f.ty, f.name@, 0) == Err::<
                Seq<u8>,
                ErrorModel,
            >(e@) && old(buf)@.is_prefix_of(final(buf)@),
        },
{
    let ghost ev = values_view(elems@);
    proof {
        lemma_values_view_index(elems@);
    }
    let ghost orig = buf@;
    let mut j: usize = 0;
    #[verifier::loop_isolation(false)]
    while j < elems.len()
        invariant
            0 <= j <= elems@.len(),
            orig.is_prefix_of(buf@),
            match spec_packed_payload(ev, f.ty, f.name@, j as int) {
                Ok(rest) => spec_packed_payload(ev, f.ty, f.name@, 0) == Ok::<Seq<u8>, ErrorModel>(
                    buf@.skip(orig.len() as int) + rest,
                ),
                Err(e) => spec_packed_payload(ev, f.ty, f.name@, 0) == Err::<Seq<u8>, ErrorModel>(
                    e,
                ),
            },
        decreases elems@.len() - j,
    {
        let ghost w = buf@.skip(orig.len() as int);
        match encode_scalar_payload(buf, f, &elems[j]) {
            Ok(_) => {},
            Err(e) => {
                return Err(e);
            },
        }
        proof {
            let b = spec_scalar_payload(f.ty, ev[j as int])->0;
            assert(buf@.skip(orig.len() as int) =~= w + b);
            match spec_packed_payload(ev, f.ty, f.name@, j + 1) {
                Ok(rest) => {
                    assert((w + b) + rest =~= w + (b + rest));
                },
                Err(_) => {},
            }
        }
        j += 1;
    }
    proof {
        assert(buf@ =~= orig + buf@.skip(orig.len() as int));
        match spec_packed_payload(ev, f.ty, f.name@, elems@.len() as int) {
            Ok(rest) => {
                assert(buf@.skip(orig.len() as int) + rest =~= buf@.skip(orig.len() as int));
            },
            Err(_) => {},
        }
    }
    Ok(())
}

/// Appends a map field's entries, each as one synthetic entry message.
#[verifier::rlimit(60)]
fn encode_entries(
    buf: &mut Vec<u8>,
    entries: &Vec<(Value, Value)>,
    f: &FieldInfo,
    child: &MessageInfo,
    fuel: u32,
) -> (r: Result<(), Error>)
    requires
        f.number.wf(),
        wf_message_info(*child),
    ensures
        match r {
            Ok(_) => spec_encode_entries(pairs_view(entries@), *f, *child, 0, fuel as nat) is Ok
                && final(buf)@ == old(buf)@ + spec_encode_entries(
                pairs_view(entries@),
                *f,
                *child,
                0,
                fuel as nat,
            )->Ok_0,
            Err(e) => spec_encode_entries(pairs_view(entries@), *f, *child, 0, fuel as nat)
                == Err::<Seq<u8>, ErrorModel>(e@) && old(buf)@.is_prefix_of(final(buf)@),
        },
    decreases fuel, 1int, 0int, 0int,
{
    let ghost ev = pairs_view(entries@);
    proof {
        lemma_pairs_view_index(entries@);
    }
    let ghost orig = buf@;
    let mut j: usize = 0;
    #[verifier::loop_isolation(false)]
    while j < entries.len()
        invariant
            0 <= j <= entries@.len(),
            orig.is_prefix_of(buf@),
            match spec_encode_entries(ev, *f, *child, j as int, fuel as nat) {
                Ok(rest) => spec_encode_entries(ev, *f, *child, 0, fuel as nat) == Ok::<
                    Seq<u8>,
                    ErrorModel,
                >(buf@.skip(orig.len() as int) + rest),
                Err(e) => spec_encode_entries(ev, *f, *child, 0, fuel as nat) == Err::<
                    Seq<u8>,
                    ErrorModel,
                >(e),
            },
        decreases entries@.len() - j,
    {
        let ghost w = buf@.skip(orig.len() as int);
        if child.fields.len() < 2 {
            return Err(Error::Message("key field for map not found".to_owned()));
        }
        let mut body: Vec<u8> = Vec::new();
        match encode_single(&mut body, &child.fields[0], &entries[j].0, fuel) {
            Ok(_) => {},
            Err(e) => {
                return Err(e);
            },
        }
        let ghost kb = spec_encode_single(child.fields@[0], ev[j as int].0, fuel as nat)->Ok_0;
        match encode_single(&mut body, &child.fields[1], &entries[j].1, fuel) {
            Ok(_) => {},
            Err(e) => {
                return Err(e);
            },
        }
        let ghost vb = spec_encode_single(child.fields@[1], ev[j as int].1, fuel as nat)->Ok_0;
        proof {
            assert(body@ =~= kb + vb);
        }
        put_tag(buf, f.number, WireType::Bytes);
        put_varint(buf, body.len() as u64);
        extend_bytes(buf, &body);
        proof {
            let entry_enc = spec_tag_bytes(f.number.spec_get(), WireType::Bytes) + varint_enc(
                (kb + vb).len() as u64,
            ) + kb + vb;
            assert(buf@.skip(orig.len() as int) =~= w + entry_enc);
            match spec_encode_entries(ev, *f, *child, j + 1, fuel as nat) {
                Ok(rest) => {
                    assert((w + entry_enc) + rest =~= w + (entry_enc + rest));
                    assert(spec_encode_entries(ev, *f, *child, j as int, fuel as nat) == Ok::<
                        Seq<u8>,
                        ErrorModel,
                    >(entry_enc + rest));
                },
                Err(_) => {},
            }
        }
        j += 1;
    }
    proof {
        assert(buf@ =~= orig + buf@.skip(orig.len() as int));
        match spec_encode_entries(ev, *f, *child, entries@.len() as int, fuel as nat) {
            Ok(rest) => {
                assert(buf@.skip(orig.len() as int) + rest =~= buf@.skip(orig.len() as int));
            },
            Err(_) => {},
        }
    }
    Ok(())
}

/// Appends the contribution of one field, suppression rules included.
#[verifier::rlimit(60)]
fn encode_field(buf: &mut Vec<u8>, f: &FieldInfo, v: &Value, syntax: Syntax, fuel: u32) -> (r:
    Result<(), Error>)
    requires
        wf_field_info(*f),
    ensures
        match r {
            Ok(_) => spec_encode_field(*f, v@, syntax, fuel as nat) is Ok
                && final(buf)@ == old(buf)@ + spec_encode_field(*f, v@, syntax, fuel as nat)->Ok_0,
            Err(e) => spec_encode_field(*f, v@, syntax, fuel as nat) == Err::<Seq<u8>, ErrorModel>(
                e@,
            ) && old(buf)@.is_prefix_of(final(buf)@),
        },
    decreases fuel, 1int, 1int, 0int,
{
    if matches!(v, Value::Unset) {
        return Ok(());
    }
    if matches!(f.cardinality, crate::info::Cardinality::Repeated) {
        let is_map = match &f.message_info {
            Some(c) => matches!(f.ty, Type::Message) && c.is_map,
            None => false,
        };
        if is_map {
            let child = match &f.message_info {
                Some(c) => c,
                None => {
                    return Err(Error::TypeMismatch(f.name.clone()));
                },
            };
            match v {
                Value::Dict(entries) => encode_entries(buf, entries, f, child, fuel),
                _ => Err(Error::TypeMismatch(f.name.clone())),
            }
        } else {
            match v {
                Value::List(elems) => {
                    if elems.len() == 0 {
                        return Ok(());
                    }
                    let wt = f.ty.wire_type();
                    let packable = !matches!(wt, WireType::Bytes) && !matches!(
                        wt,
                        WireType::StartGroup,
                    );
                    if f.packed && packable {
                        let mut payload: Vec<u8> = Vec::new();
                        match encode_packed_payload(&mut payload, elems, f) {
                            Ok(_) => {},
                            Err(e) => {
                                return Err(e);
                            },
                        }
                        put_tag(buf, f.number, WireType::Bytes);
                        put_varint(buf, payload.len() as u64);
                        extend_bytes(buf, &payload);
                        proof {
                            assert(final(buf)@ =~= old(buf)@ + (spec_tag_bytes(
                                f.number.spec_get(),
                                WireType::Bytes,
                            ) + varint_enc(payload@.len() as u64) + payload@));
                        }
                        Ok(())
                    } else {
                        encode_elements(buf, elems, f, fuel)
                    }
                },
                _ => Err(Error::TypeMismatch(f.name.clone())),
            }
        }
    } else {
        let suppress = matches!(syntax, Syntax::Proto3) && f.oneof_index.is_none() && is_default(v);
        if suppress {
            Ok(())
        } else {
            encode_single(buf, f, v, fuel)
        }
    }
}

/// Whether a value is the zero of its scalar type.
fn is_default(v: &Value) -> (r: bool)
    ensures
        r == spec_is_default(v@),
{
    match v {
        Value::Bool(b) => *b == false,
        Value::I32(x) => *x == 0,
        Value::I64(x) => *x == 0,
        Value::U32(x) => *x == 0,
        Value::U64(x) => *x == 0,
        Value::F32(x) => *x == 0,
        Value::F64(x) => *x == 0,
        Value::Enum(x) => *x == 0,
        Value::String(s) => s.as_str().is_empty(),
        Value::Bytes(b) => b.len() == 0,
        _ => false,
    }
}

/// Appends the wire encoding of a message value under its descriptor,
/// walking fields in descriptor order.
fn encode_message(buf: &mut Vec<u8>, vals: &Vec<Value>, m: &MessageInfo, fuel: u32) -> (r: Result<
    (),
    Error,
>)
    requires
        wf_message_info(*m),
    ensures
        match r {
            Ok(_) => spec_encode_message(values_view(vals@), *m, fuel as nat) is Ok && final(buf)@
                == old(buf)@ + spec_encode_message(values_view(vals@), *m, fuel as nat)->Ok_0,
            Err(e) => spec_encode_message(values_view(vals@), *m, fuel as nat) == Err::<
                Seq<u8>,
                ErrorModel,
            >(e@) && old(buf)@.is_prefix_of(final(buf)@),
        },
    decreases fuel, 3int, 0int, 0int,
{
    let ghost vv = values_view(vals@);
    proof {
        lemma_values_view_index(vals@);
    }
    if vals.len() != m.fields.len() {
        return Err(Error::Message("field descriptor not found".to_owned()));
    }
    let ghost orig = buf@;
    let mut i: usize = 0;
    #[verifier::loop_isolation(false)]
    while i < m.fields.len()
        invariant
            0 <= i <= m.fields@.len(),
            orig.is_prefix_of(buf@),
            match spec_encode_fields(vv, *m, i as int, fuel as nat) {
                Ok(rest) => spec_encode_fields(vv, *m, 0, fuel as nat) == Ok::<Seq<u8>, ErrorModel>(
                    buf@.skip(orig.len() as int) + rest,
                ),
                Err(e) => spec_encode_fields(vv, *m, 0, fuel as nat) == Err::<Seq<u8>, ErrorModel>(
                    e,
                ),
            },
        decreases m.fields@.len() - i,
    {
        let ghost w = buf@.skip(orig.len() as int);
        match encode_field(buf, &m.fields[i], &vals[i], m.syntax, fuel) {
            Ok(_) => {},
            Err(e) => {
                return Err(e);
            },
        }
        proof {
            let b = spec_encode_field(m.fields@[i as int], vv[i as int], m.syntax, fuel as nat)->Ok_0;
            assert(buf@.skip(orig.len() as int) =~= w + b);
            match spec_encode_fields(vv, *m, i + 1, fuel as nat) {
                Ok(rest) => {
                    assert((w + b) + rest =~= w + (b + rest));
                },
                Err(_) => {},
            }
        }
        i += 1;
    }
    proof {
        assert(buf@ =~= orig + buf@.skip(orig.len() as int));
        match spec_encode_fields(vv, *m, m.fields@.len() as int, fuel as nat) {
            Ok(rest) => {
                assert(buf@.skip(orig.len() as int) + rest =~= buf@.skip(orig.len() as int));
            },
            Err(_) => {},
        }
    }
    Ok(())
}

/// Encodes a message value to freshly allocated wire bytes: exactly the
/// image of `spec_encode` under the descriptor, or its fault.
pub fn to_vec(value: &Value, info: &MessageInfo) -> (r: Result<Vec<u8>, Error>)
    requires
        wf_message_info(*info),
    ensures
        match r {
            Ok(v) => spec_encode(value@, *info, RECURSION_LIMIT as nat) == Ok::<Seq<u8>, ErrorModel>(
                v@,
            ),
            Err(e) => spec_encode(value@, *info, RECURSION_LIMIT as nat) == Err::<
                Seq<u8>,
                ErrorModel,
            >(e@),
        },
{
    let vals = match value {
        Value::Message(vals) => vals,
        _ => {
            return Err(Error::TypeMismatch(info.name.clone()));
        },
    };
    let mut buf: Vec<u8> = Vec::new();
    match encode_message(&mut buf, vals, info, RECURSION_LIMIT) {
        Ok(_) => Ok(buf),
        Err(e) => Err(e),
    }
}


/// Adds two byte counts, or reports that the encoding cannot fit memory.
fn add_size(a: usize, b: usize) -> (r: Result<usize, Error>)
    ensures
        match r {
            Ok(n) => n == a + b,
            Err(e) => a + b > usize::MAX && e@ == ErrorModel::Message("message too large"@),
        },
{
    if a <= usize::MAX - b {
        Ok(a + b)
    } else {
        Err(Error::Message("message too large".to_owned()))
    }
}

/// The byte count of one scalar payload, without writing it.
fn size_scalar_payload(f: &FieldInfo, v: &Value) -> (r: Result<usize, Error>)
    ensures
        match r {
            Ok(n) => spec_scalar_payload(f.ty, v@) is Some && n == spec_scalar_payload(
                f.ty,
                v@,
            )->0.len(),
            Err(e) => (spec_scalar_payload(f.ty, v@) is None && e@ == ErrorModel::TypeMismatch(
                f.name@,
            )) || (e@ == ErrorModel::Message("message too large"@) && !(spec_scalar_payload(
                f.ty,
                v@,
            ) is Some && spec_scalar_payload(f.ty, v@)->0.len() <= usize::MAX)),
        },
{
    match (f.ty, v) {
        (Type::Int32, Value::I32(x)) => Ok(crate::wire::size_varint(*x as i64 as u64)),
        (Type::Int64, Value::I64(x)) => Ok(crate::wire::size_varint(*x as u64)),
        (Type::Uint32, Value::U32(x)) => Ok(crate::wire::size_varint(*x as u64)),
        (Type::Uint64, Value::U64(x)) => Ok(crate::wire::size_varint(*x)),
        (Type::SInt32, Value::I32(x)) => Ok(crate::wire::size_varint(encode_zig_zag(*x as i64))),
        (Type::SInt64, Value::I64(x)) => Ok(crate::wire::size_varint(encode_zig_zag(*x))),
        (Type::Bool, Value::Bool(b)) => Ok(
            crate::wire::size_varint(
                if *b {
                    1
                } else {
                    0
                },
            ),
        ),
        (Type::Enum, Value::Enum(x)) => Ok(crate::wire::size_varint(*x as i64 as u64)),
        (Type::Fixed32, Value::U32(_)) => Ok(crate::wire::size_fixed32()),
        (Type::SFixed32, Value::I32(_)) => Ok(crate::wire::size_fixed32()),
        (Type::Float, Value::F32(_)) => Ok(crate::wire::size_fixed32()),
        (Type::Fixed64, Value::U64(_)) => Ok(crate::wire::size_fixed64()),
        (Type::SFixed64, Value::I64(_)) => Ok(crate::wire::size_fixed64()),
        (Type::Double, Value::F64(_)) => Ok(crate::wire::size_fixed64()),
        (Type::String, Value::String(st)) => {
            let blen = st.as_str().as_bytes().len();
            add_size(crate::wire::size_varint(blen as u64), blen)
        },
        (Type::Bytes, Value::Bytes(b)) => {
            let blen = b.len();
            add_size(crate::wire::size_varint(blen as u64), blen)
        },
        _ => Err(Error::TypeMismatch(f.name.clone())),
    }
}

/// The byte count of one tagged occurrence, without writing it.
#[verifier::rlimit(60)]
fn size_single(f: &FieldInfo, v: &Value, fuel: u32) -> (r: Result<usize, Error>)
    requires
        wf_field_info(*f),
    ensures
        match r {
            Ok(n) => spec_encode_single(*f, v@, fuel as nat) is Ok && n == spec_encode_single(
                *f,
                v@,
                fuel as nat,
            )->Ok_0.len(),
            Err(e) => spec_encode_single(*f, v@, fuel as nat) == Err::<Seq<u8>, ErrorModel>(e@) || (
            e@ == ErrorModel::Message("message too large"@) && !(spec_encode_single(
                *f,
                v@,
                fuel as nat,
            ) is Ok && spec_encode_single(*f, v@, fuel as nat)->Ok_0.len() <= usize::MAX)),
        },
    decreases fuel, 0int, 0int, 0int,
{
    if matches!(f.ty, Type::Message) || matches!(f.ty, Type::Group) {
        let child = match &f.message_info {
            Some(c) => c,
            None => {
                return Err(Error::Message("message descriptor not found".to_owned()));
            },
        };
        let vals = match v {
            Value::Message(vals) => vals,
            _ => {
                return Err(Error::TypeMismatch(f.name.clone()));
            },
        };
        if fuel == 0 {
            return Err(Error::RecursionLimit);
        }
        let body = match size_message(vals, child, fuel - 1) {
            Ok(n) => n,
            Err(e) => {
                return Err(e);
            },
        };
        let tag_len = crate::wire::size_tag_for(f.number, f.ty.wire_type());
        if matches!(f.ty, Type::Message) {
            let with_len = match add_size(crate::wire::size_varint(body as u64), body) {
                Ok(n) => n,
                Err(e) => {
                    return Err(e);
                },
            };
            add_size(tag_len, with_len)
        } else {
            let end_len = crate::wire::size_tag_for(f.number, WireType::EndGroup);
            let with_end = match add_size(body, end_len) {
                Ok(n) => n,
                Err(e) => {
                    return Err(e);
                },
            };
            add_size(tag_len, with_end)
        }
    } else {
        let tag_len = crate::wire::size_tag_for(f.number, f.ty.wire_type());
        let payload = match size_scalar_payload(f, v) {
            Ok(n) => n,
            Err(e) => {
                return Err(e);
            },
        };
        add_size(tag_len, payload)
    }
}

/// The byte count of an unpacked repeated field's elements.
fn size_elements(elems: &Vec<Value>, f: &FieldInfo, fuel: u32) -> (r: Result<usize, Error>)
    requires
        wf_field_info(*f),
    ensures
        match r {
            Ok(n) => spec_encode_elements(values_view(elems@), *f, 0, fuel as nat) is Ok && n
                == spec_encode_elements(values_view(elems@), *f, 0, fuel as nat)->Ok_0.len(),
            Err(e) => spec_encode_elements(values_view(elems@), *f, 0, fuel as nat) == Err::<
                Seq<u8>,
                ErrorModel,
            >(e@) || (e@ == ErrorModel::Message("message too large"@) && !(spec_encode_elements(
                values_view(elems@),
                *f,
                0,
                fuel as nat,
            ) is Ok && spec_encode_elements(values_view(elems@), *f, 0, fuel as nat)->Ok_0.len()
                <= usize::MAX)),
        },
    decreases fuel, 1int, 0int, 0int,
{
    let ghost ev = values_view(elems@);
    proof {
        lemma_values_view_index(elems@);
    }
    let mut acc: usize = 0;
    let mut j: usize = 0;
    #[verifier::loop_isolation(false)]
    while j < elems.len()
        invariant
            0 <= j <= elems@.len(),
            match spec_encode_elements(ev, *f, j as int, fuel as nat) {
                Ok(rest) => spec_encode_elements(ev, *f, 0, fuel as nat) is Ok
                    && spec_encode_elements(ev, *f, 0, fuel as nat)->Ok_0.len() == acc
                    + rest.len(),
                Err(e) => spec_encode_elements(ev, *f, 0, fuel as nat) == Err::<Seq<u8>, ErrorModel>(
                    e,
                ),
            },
        decreases elems@.len() - j,
    {
        let n = match size_single(f, &elems[j], fuel) {
            Ok(n) => n,
            Err(e) => {
                return Err(e);
            },
        };
        acc = match add_size(acc, n) {
            Ok(a) => a,
            Err(e) => {
                return Err(e);
            },
        };
        j += 1;
    }
    Ok(acc)
}

/// The byte count of a packed field's tagless payload.
fn size_packed_payload(elems: &Vec<Value>, f: &FieldInfo) -> (r: Result<usize, Error>)
    ensures
        match r {
            Ok(n) => spec_packed_payload(values_view(elems@), f.ty, f.name@, 0) is Ok && n
                == spec_packed_payload(values_view(elems@), f.ty, f.name@, 0)->Ok_0.len(),
            Err(e) => spec_packed_payload(values_view(elems@), f.ty, f.name@, 0) == Err::<
                Seq<u8>,
                ErrorModel,
            >(e@) || (e@ == ErrorModel::Message("message too large"@) && !(spec_packed_payload(
                values_view(elems@),
                f.ty,
                f.name@,
                0,
            ) is Ok && spec_packed_payload(values_view(elems@), f.ty, f.name@, 0)->Ok_0.len()
                <= usize::MAX)),
        },
{
    let ghost ev = values_view(elems@);
    proof {
        lemma_values_view_index(elems@);
    }
    let mut acc: usize = 0;
    let mut j: usize = 0;
    #[verifier::loop_isolation(false)]
    while j < elems.len()
        invariant
            0 <= j <= elems@.len(),
            match spec_packed_payload(ev, f.ty, f.name@, j as int) {
                Ok(rest) => spec_packed_payload(ev, f.ty, f.name@, 0) is Ok && spec_packed_payload(
                    ev,
                    f.ty,
                    f.name@,
                    0,
                )->Ok_0.len() == acc + rest.len(),
                Err(e) => spec_packed_payload(ev, f.ty, f.name@, 0) == Err::<Seq<u8>, ErrorModel>(
                    e,
                ),
            },
        decreases elems@.len() - j,
    {
        let n = match size_scalar_payload(f, &elems[j]) {
            Ok(n) => n,
            Err(e) => {
                return Err(e);
            },
        };
        acc = match add_size(acc, n) {
            Ok(a) => a,
            Err(e) => {
                return Err(e);
            },
        };
        j += 1;
    }
    Ok(acc)
}

/// The byte count of a map field's entries.
#[verifier::rlimit(60)]
fn size_entries(
    entries: &Vec<(Value, Value)>,
    f: &FieldInfo,
    child: &MessageInfo,
    fuel: u32,
) -> (r: Result<usize, Error>)
    requires
        f.number.wf(),
        wf_message_info(*child),
    ensures
        match r {
            Ok(n) => spec_encode_entries(pairs_view(entries@), *f, *child, 0, fuel as nat) is Ok
                && n == spec_encode_entries(
                pairs_view(entries@),
                *f,
                *child,
                0,
                fuel as nat,
            )->Ok_0.len(),
            Err(e) => spec_encode_entries(pairs_view(entries@), *f, *child, 0, fuel as nat)
                == Err::<Seq<u8>, ErrorModel>(e@) || (e@ == ErrorModel::Message(
                "message too large"@,
            ) && !(spec_encode_entries(pairs_view(entries@), *f, *child, 0, fuel as nat) is Ok
                && spec_encode_entries(
                pairs_view(entries@),
                *f,
                *child,
                0,
                fuel as nat,
            )->Ok_0.len() <= usize::MAX)),
        },
    decreases fuel, 1int, 0int, 0int,
{
    let ghost ev = pairs_view(entries@);
    proof {
        lemma_pairs_view_index(entries@);
    }
    let mut acc: usize = 0;
    let mut j: usize = 0;
    #[verifier::loop_isolation(false)]
    while j < entries.len()
        invariant
            0 <= j <= entries@.len(),
            match spec_encode_entries(ev, *f, *child, j as int, fuel as nat) {
                Ok(rest) => spec_encode_entries(ev, *f, *child, 0, fuel as nat) is Ok
                    && spec_encode_entries(ev, *f, *child, 0, fuel as nat)->Ok_0.len() == acc
                    + rest.len(),
                Err(e) => spec_encode_entries(ev, *f, *child, 0, fuel as nat) == Err::<
                    Seq<u8>,
                    ErrorModel,
                >(e),
            },
        decreases entries@.len() - j,
    {
        if child.fields.len() < 2 {
            return Err(Error::Message("key field for map not found".to_owned()));
        }
        let kn = match size_single(&child.fields[0], &entries[j].0, fuel) {
            Ok(n) => n,
            Err(e) => {
                return Err(e);
            },
        };
        let vn = match size_single(&child.fields[1], &entries[j].1, fuel) {
            Ok(n) => n,
            Err(e) => {
                return Err(e);
            },
        };
        let body = match add_size(kn, vn) {
            Ok(n) => n,
            Err(e) => {
                return Err(e);
            },
        };
        let tag_len = crate::wire::size_tag_for(f.number, WireType::Bytes);
        let entry = match add_size(tag_len, match add_size(crate::wire::size_varint(body as u64), body) {
            Ok(n) => n,
            Err(e) => {
                return Err(e);
            },
        }) {
            Ok(n) => n,
            Err(e) => {
                return Err(e);
            },
        };
        proof {
            let kb = spec_encode_single(child.fields@[0], ev[j as int].0, fuel as nat)->Ok_0;
            let vb = spec_encode_single(child.fields@[1], ev[j as int].1, fuel as nat)->Ok_0;
            assert((kb + vb).len() == kb.len() + vb.len());
        }
        acc = match add_size(acc, entry) {
            Ok(a) => a,
            Err(e) => {
                return Err(e);
            },
        };
        j += 1;
    }
    Ok(acc)
}

/// The byte count one field contributes, suppression rules included.
#[verifier::rlimit(60)]
fn size_field(f: &FieldInfo, v: &Value, syntax: Syntax, fuel: u32) -> (r: Result<usize, Error>)
    requires
        wf_field_info(*f),
    ensures
        match r {
            Ok(n) => spec_encode_field(*f, v@, syntax, fuel as nat) is Ok && n == spec_encode_field(
                *f,
                v@,
                syntax,
                fuel as nat,
            )->Ok_0.len(),
            Err(e) => spec_encode_field(*f, v@, syntax, fuel as nat) == Err::<Seq<u8>, ErrorModel>(
                e@,
            ) || (e@ == ErrorModel::Message("message too large"@) && !(spec_encode_field(
                *f,
                v@,
                syntax,
                fuel as nat,
            ) is Ok && spec_encode_field(*f, v@, syntax, fuel as nat)->Ok_0.len() <= usize::MAX)),
        },
    decreases fuel, 1int, 1int, 0int,
{
    if matches!(v, Value::Unset) {
        return Ok(0);
    }
    if matches!(f.cardinality, crate::info::Cardinality::Repeated) {
        let is_map = match &f.message_info {
            Some(c) => matches!(f.ty, Type::Message) && c.is_map,
            None => false,
        };
        if is_map {
            let child = match &f.message_info {
                Some(c) => c,
                None => {
                    return Err(Error::TypeMismatch(f.name.clone()));
                },
            };
            match v {
                Value::Dict(entries) => size_entries(entries, f, child, fuel),
                _ => Err(Error::TypeMismatch(f.name.clone())),
            }
        } else {
            match v {
                Value::List(elems) => {
                    if elems.len() == 0 {
                        return Ok(0);
                    }
                    let wt = f.ty.wire_type();
                    let packable = !matches!(wt, WireType::Bytes) && !matches!(
                        wt,
                        WireType::StartGroup,
                    );
                    if f.packed && packable {
                        let payload = match size_packed_payload(elems, f) {
                            Ok(n) => n,
                            Err(e) => {
                                return Err(e);
                            },
                        };
                        let tag_len = crate::wire::size_tag_for(f.number, WireType::Bytes);
                        let with_len = match add_size(
                            crate::wire::size_varint(payload as u64),
                            payload,
                        ) {
                            Ok(n) => n,
                            Err(e) => {
                                return Err(e);
                            },
                        };
                        add_size(tag_len, with_len)
                    } else {
                        size_elements(elems, f, fuel)
                    }
                },
                _ => Err(Error::TypeMismatch(f.name.clone())),
            }
        }
    } else {
        let suppress = matches!(syntax, Syntax::Proto3) && f.oneof_index.is_none() && is_default(v);
        if suppress {
            Ok(0)
        } else {
            size_single(f, v, fuel)
        }
    }
}

/// The byte count of a whole message under its descriptor, without
/// writing a byte: the size-hint pass.
fn size_message(vals: &Vec<Value>, m: &MessageInfo, fuel: u32) -> (r: Result<usize, Error>)
    requires
        wf_message_info(*m),
    ensures
        match r {
            Ok(n) => spec_encode_message(values_view(vals@), *m, fuel as nat) is Ok && n
                == spec_encode_message(values_view(vals@), *m, fuel as nat)->Ok_0.len(),
            Err(e) => spec_encode_message(values_view(vals@), *m, fuel as nat) == Err::<
                Seq<u8>,
                ErrorModel,
            >(e@) || (e@ == ErrorModel::Message("message too large"@) && !(spec_encode_message(
                values_view(vals@),
                *m,
                fuel as nat,
            ) is Ok && spec_encode_message(values_view(vals@), *m, fuel as nat)->Ok_0.len()
                <= usize::MAX)),
        },
    decreases fuel, 3int, 0int, 0int,
{
    let ghost vv = values_view(vals@);
    proof {
        lemma_values_view_index(vals@);
    }
    if vals.len() != m.fields.len() {
        return Err(Error::Message("field descriptor not found".to_owned()));
    }
    let mut acc: usize = 0;
    let mut i: usize = 0;
    #[verifier::loop_isolation(false)]
    while i < m.fields.len()
        invariant
            0 <= i <= m.fields@.len(),
            match spec_encode_fields(vv, *m, i as int, fuel as nat) {
                Ok(rest) => spec_encode_fields(vv, *m, 0, fuel as nat) is Ok && spec_encode_fields(
                    vv,
                    *m,
                    0,
                    fuel as nat,
                )->Ok_0.len() == acc + rest.len(),
                Err(e) => spec_encode_fields(vv, *m, 0, fuel as nat) == Err::<Seq<u8>, ErrorModel>(
                    e,
                ),
            },
        decreases m.fields@.len() - i,
    {
        let n = match size_field(&m.fields[i], &vals[i], m.syntax, fuel) {
            Ok(n) => n,
            Err(e) => {
                return Err(e);
            },
        };
        acc = match add_size(acc, n) {
            Ok(a) => a,
            Err(e) => {
                return Err(e);
            },
        };
        i += 1;
    }
    Ok(acc)
}

/// The exact number of bytes `to_vec` would produce for this value, or
/// the fault it would stop on: the public face of the size-hint pass.
pub fn serialized_size(value: &Value, info: &MessageInfo) -> (r: Result<usize, Error>)
    requires
        wf_message_info(*info),
    ensures
        match r {
            Ok(n) => spec_encode(value@, *info, RECURSION_LIMIT as nat) is Ok && n == spec_encode(
                value@,
                *info,
                RECURSION_LIMIT as nat,
            )->Ok_0.len(),
            Err(e) => spec_encode(value@, *info, RECURSION_LIMIT as nat) == Err::<
                Seq<u8>,
                ErrorModel,
            >(e@) || (e@ == ErrorModel::Message("message too large"@) && !(spec_encode(
                value@,
                *info,
                RECURSION_LIMIT as nat,
            ) is Ok && spec_encode(value@, *info, RECURSION_LIMIT as nat)->Ok_0.len()
                <= usize::MAX)),
        },
{
    let vals = match value {
        Value::Message(vals) => vals,
        _ => {
            return Err(Error::TypeMismatch(info.name.clone()));
        },
    };
    size_message(vals, info, RECURSION_LIMIT)
}


/// A value that carries nothing under proto3: an absent field, a scalar
/// at its type's zero, or an empty container.
pub open spec fn spec_vacant(f: FieldInfo, v: ValueModel) -> bool {
    if f.cardinality == crate::info::Cardinality::Repeated {
        if spec_is_map_field(f) {
            v == ValueModel::Dict(Seq::<(ValueModel, ValueModel)>::empty())
        } else {
            v == ValueModel::List(Seq::<ValueModel>::empty())
        }
    } else {
        v == ValueModel::Unset || spec_is_default(v)
    }
}

proof fn lemma_proto3_default_fields_empty(
    vals: Seq<ValueModel>,
    m: MessageInfo,
    i: int,
    fuel: nat,
)
    requires
        m.syntax == Syntax::Proto3,
        vals.len() == m.fields@.len(),
        0 <= i <= m.fields@.len(),
        forall|j: int| 0 <= j < m.fields@.len() ==> (#[trigger] m.fields@[j]).oneof_index is None,
        forall|j: int|
            0 <= j < m.fields@.len() ==> spec_vacant(#[trigger] m.fields@[j], vals[j]),
    ensures
        spec_encode_fields(vals, m, i, fuel) == Ok::<Seq<u8>, ErrorModel>(Seq::<u8>::empty()),
    decreases m.fields@.len() - i,
{
    if i < 0 || i >= m.fields@.len() {
    } else {
        lemma_proto3_default_fields_empty(vals, m, i + 1, fuel);
        let f = m.fields@[i];
        let v = vals[i];
        assert(spec_encode_field(f, v, m.syntax, fuel) == Ok::<Seq<u8>, ErrorModel>(
            Seq::<u8>::empty(),
        )) by {
            if f.cardinality == crate::info::Cardinality::Repeated && v != ValueModel::Unset {
                if spec_is_map_field(f) {
                    assert(spec_encode_entries(
                        Seq::<(ValueModel, ValueModel)>::empty(),
                        f,
                        *f.message_info->0,
                        0,
                        fuel,
                    ) == Ok::<Seq<u8>, ErrorModel>(Seq::<u8>::empty()));
                }
            }
        };
        assert(Seq::<u8>::empty() + Seq::<u8>::empty() =~= Seq::<u8>::empty());
    }
}

/// Proto3 default suppression, whole-message form: a message whose every
/// field is absent, zero, or an empty container — none inside a oneof —
/// encodes to the empty byte sequence.
pub proof fn lemma_proto3_default_empty(vals: Seq<ValueModel>, m: MessageInfo, fuel: nat)
    requires
        m.syntax == Syntax::Proto3,
        vals.len() == m.fields@.len(),
        forall|j: int| 0 <= j < m.fields@.len() ==> (#[trigger] m.fields@[j]).oneof_index is None,
        forall|j: int|
            0 <= j < m.fields@.len() ==> spec_vacant(#[trigger] m.fields@[j], vals[j]),
    ensures
        spec_encode_message(vals, m, fuel) == Ok::<Seq<u8>, ErrorModel>(Seq::<u8>::empty()),
{
    lemma_proto3_default_fields_empty(vals, m, 0, fuel);
}

} // verus!
