use vstd::prelude::*;

verus! {

broadcast use vstd::std_specs::vec::axiom_vec_decreases_to_view;


/// The ghost image of a `Value`: strings as character sequences, buffers
/// as byte sequences, containers as sequences.
pub enum ValueModel {
    Unset,
    Bool(bool),
    I32(i32),
    I64(i64),
    U32(u32),
    U64(u64),
    F32(u32),
    F64(u64),
    Enum(i32),
    String(Seq<char>),
    Bytes(Seq<u8>),
    Message(Seq<ValueModel>),
    List(Seq<ValueModel>),
    Dict(Seq<(ValueModel, ValueModel)>),
}

/// A structured value the engine walks under a descriptor.  Floats travel
/// as their raw bit patterns: this layer never interprets them.  A message
/// value holds one entry per descriptor field, in descriptor order, with
/// `Unset` for an absent field.
#[derive(Debug, PartialEq)]
pub enum Value {
    Unset,
    Bool(bool),
    I32(i32),
    I64(i64),
    U32(u32),
    U64(u64),
    F32(u32),
    F64(u64),
    Enum(i32),
    String(String),
    Bytes(Vec<u8>),
    Message(Vec<Value>),
    List(Vec<Value>),
    Dict(Vec<(Value, Value)>),
}

/// The ghost image of one value.
pub open spec fn value_view(v: Value) -> ValueModel
    decreases v,
{
    match v {
        Value::Unset => ValueModel::Unset,
        Value::Bool(b) => ValueModel::Bool(b),
        Value::I32(x) => ValueModel::I32(x),
        Value::I64(x) => ValueModel::I64(x),
        Value::U32(x) => ValueModel::U32(x),
        Value::U64(x) => ValueModel::U64(x),
        Value::F32(x) => ValueModel::F32(x),
        Value::F64(x) => ValueModel::F64(x),
        Value::Enum(x) => ValueModel::Enum(x),
        Value::String(s) => ValueModel::String(s@),
        Value::Bytes(b) => ValueModel::Bytes(b@),
        Value::Message(vs) => ValueModel::Message(values_view(vs@)),
        Value::List(vs) => ValueModel::List(values_view(vs@)),
        Value::Dict(ps) => ValueModel::Dict(pairs_view(ps@)),
    }
}

/// The ghost image of a sequence of values, elementwise.
pub open spec fn values_view(s: Seq<Value>) -> Seq<ValueModel>
    decreases s,
{
    if s.len() == 0 {
        Seq::empty()
    } else {
        seq![value_view(s[0])] + values_view(s.drop_first())
    }
}

/// The ghost image of a sequence of key/value pairs, elementwise.
pub open spec fn pairs_view(s: Seq<(Value, Value)>) -> Seq<(ValueModel, ValueModel)>
    decreases s,
{
    if s.len() == 0 {
        Seq::empty()
    } else {
        seq![(value_view(s[0].0), value_view(s[0].1))] + pairs_view(s.drop_first())
    }
}

/// Elementwise reading of `values_view`.
pub proof fn lemma_values_view_index(s: Seq<Value>)
    ensures
        values_view(s).len() == s.len(),
        forall|i: int| 0 <= i < s.len() ==> values_view(s)[i] == value_view(#[trigger] s[i]),
    decreases s,
{
    if s.len() > 0 {
        lemma_values_view_index(s.drop_first());
        assert forall|i: int| 0 <= i < s.len() implies values_view(s)[i] == value_view(
            #[trigger] s[i],
        ) by {
            if i > 0 {
                assert(s.drop_first()[i - 1] == s[i]);
                assert(values_view(s)[i] == values_view(s.drop_first())[i - 1]);
            }
        }
    }
}

/// Elementwise reading of `pairs_view`.
pub proof fn lemma_pairs_view_index(s: Seq<(Value, Value)>)
    ensures
        pairs_view(s).len() == s.len(),
        forall|i: int|
            0 <= i < s.len() ==> pairs_view(s)[i] == (
            value_view(#[trigger] s[i].0),
            value_view(s[i].1),
            ),
    decreases s,
{
    if s.len() > 0 {
        lemma_pairs_view_index(s.drop_first());
        assert forall|i: int| 0 <= i < s.len() implies pairs_view(s)[i] == (
            value_view(#[trigger] s[i].0),
            value_view(s[i].1),
        ) by {
            if i > 0 {
                assert(s.drop_first()[i - 1] == s[i]);
                assert(pairs_view(s)[i] == pairs_view(s.drop_first())[i - 1]);
            }
        }
    }
}

impl View for Value {
    type V = ValueModel;

    open spec fn view(&self) -> ValueModel {
        value_view(*self)
    }
}

impl DeepView for Value {
    type V = ValueModel;

    open spec fn deep_view(&self) -> ValueModel {
        self.view()
    }
}


/// Pushing a value commutes with taking views.
pub proof fn lemma_values_view_push(s: Seq<Value>, v: Value)
    ensures
        values_view(s.push(v)) == values_view(s).push(value_view(v)),
{
    lemma_values_view_index(s);
    lemma_values_view_index(s.push(v));
    assert forall|j: int| 0 <= j < values_view(s.push(v)).len() implies values_view(s.push(v))[j]
        == values_view(s).push(value_view(v))[j] by {
        assert(values_view(s.push(v))[j] == value_view(s.push(v)[j]));
        if j < s.len() {
            assert(s.push(v)[j] == s[j]);
            assert(values_view(s)[j] == value_view(s[j]));
        } else {
            assert(s.push(v)[j] == v);
        }
    }
    assert(values_view(s.push(v)) =~= values_view(s).push(value_view(v)));
}

/// Pushing a pair commutes with taking views.
pub proof fn lemma_pairs_view_push(s: Seq<(Value, Value)>, k: Value, v: Value)
    ensures
        pairs_view(s.push((k, v))) == pairs_view(s).push((value_view(k), value_view(v))),
{
    lemma_pairs_view_index(s);
    lemma_pairs_view_index(s.push((k, v)));
    assert forall|j: int| 0 <= j < pairs_view(s.push((k, v))).len() implies pairs_view(
        s.push((k, v)),
    )[j] == pairs_view(s).push((value_view(k), value_view(v)))[j] by {
        assert(pairs_view(s.push((k, v)))[j] == (
        value_view(s.push((k, v))[j].0),
        value_view(s.push((k, v))[j].1),
        ));
        if j < s.len() {
            assert(s.push((k, v))[j] == s[j]);
            assert(pairs_view(s)[j] == (value_view(s[j].0), value_view(s[j].1)));
        } else {
            assert(s.push((k, v))[j] == (k, v));
        }
    }
    assert(pairs_view(s.push((k, v))) =~= pairs_view(s).push((value_view(k), value_view(v))));
}

} // verus!
