//! The value tree produced by the parser, and its mathematical model.

use vstd::prelude::*;

verus! {

/// A parsed JSON value.
///
/// An object is an ordered sequence of key-value pairs: insertion order is
/// preserved and duplicate keys are kept (no deduplication happens during
/// parsing). A number holds its literal text, already checked against the
/// floating-point literal grammar.
#[derive(Debug, PartialEq)]
pub enum Value {
    Null,
    Bool(bool),
    /// A numeric literal, by its text.
    Number(String),
    /// A string value, by its decoded content.
    Str(String),
    /// An ordered sequence of element values.
    Array(Vec<Value>),
    /// An ordered sequence of key-value pairs.
    Object(Vec<KV>),
}

/// One key-value pair of an object.
#[derive(Debug, PartialEq)]
pub struct KV(pub String, pub Value);

/// The mathematical shape of a [`Value`].
pub enum ValueModel {
    Null,
    Bool(bool),
    Number(Seq<char>),
    Str(Seq<char>),
    Array(Seq<ValueModel>),
    Object(Seq<(Seq<char>, ValueModel)>),
}

impl View for Value {
    type V = ValueModel;

    open spec fn view(&self) -> ValueModel
        decreases self,
    {
        match self {
            Value::Null => ValueModel::Null,
            Value::Bool(b) => ValueModel::Bool(*b),
            Value::Number(s) => ValueModel::Number(s@),
            Value::Str(s) => ValueModel::Str(s@),
            Value::Array(vs) => ValueModel::Array(seq_value_view(vs@)),
            Value::Object(kvs) => ValueModel::Object(seq_kv_view(kvs@)),
        }
    }
}

/// The models of a sequence of values, elementwise.
pub open spec fn seq_value_view(s: Seq<Value>) -> Seq<ValueModel>
    decreases s,
{
    if s.len() == 0 {
        Seq::empty()
    } else {
        seq_value_view(s.drop_last()).push(s.last()@)
    }
}

/// The models of a sequence of key-value pairs, elementwise.
pub open spec fn seq_kv_view(s: Seq<KV>) -> Seq<(Seq<char>, ValueModel)>
    decreases s,
{
    if s.len() == 0 {
        Seq::empty()
    } else {
        seq_kv_view(s.drop_last()).push((s.last().0@, s.last().1@))
    }
}

pub proof fn lemma_seq_value_view(s: Seq<Value>)
    ensures
        seq_value_view(s).len() == s.len(),
        forall|i: int| 0 <= i < s.len() ==> seq_value_view(s)[i] == #[trigger] s[i]@,
    decreases s,
{
    if s.len() > 0 {
        lemma_seq_value_view(s.drop_last());
        assert(seq_value_view(s) == seq_value_view(s.drop_last()).push(s.last()@));
        assert(seq_value_view(s.drop_last()).len() == s.drop_last().len());
        assert(s.drop_last().len() == s.len() - 1);
        assert forall|i: int| 0 <= i < s.len() implies seq_value_view(s)[i] == #[trigger] s[i]@ by {
            if i < s.len() - 1 {
                assert(s.drop_last()[i] == s[i]);
                assert(seq_value_view(s.drop_last())[i] == s.drop_last()[i]@);
            } else {
                assert(s.last() == s[i]);
            }
        }
    }
}

pub proof fn lemma_seq_value_view_push(s: Seq<Value>, v: Value)
    ensures
        seq_value_view(s.push(v)) == seq_value_view(s).push(v@),
{
    assert(s.push(v).drop_last() =~= s);
    assert(s.push(v).last() == v);
}

pub proof fn lemma_seq_kv_view(s: Seq<KV>)
    ensures
        seq_kv_view(s).len() == s.len(),
        forall|i: int| 0 <= i < s.len() ==> seq_kv_view(s)[i] == (#[trigger] s[i].0@, s[i].1@),
    decreases s,
{
    if s.len() > 0 {
        lemma_seq_kv_view(s.drop_last());
        assert(seq_kv_view(s) == seq_kv_view(s.drop_last()).push((s.last().0@, s.last().1@)));
        assert(seq_kv_view(s.drop_last()).len() == s.drop_last().len());
        assert forall|i: int| 0 <= i < s.len() implies seq_kv_view(s)[i] == (
        #[trigger] s[i].0@,
        s[i].1@,
        ) by {
            if i < s.len() - 1 {
                assert(s.drop_last()[i] == s[i]);
                assert(seq_kv_view(s.drop_last())[i] == (s.drop_last()[i].0@, s.drop_last()[i].1@));
            } else {
                assert(s.last() == s[i]);
            }
        }
    }
}

pub proof fn lemma_seq_kv_view_push(s: Seq<KV>, kv: KV)
    ensures
        seq_kv_view(s.push(kv)) == seq_kv_view(s).push((kv.0@, kv.1@)),
{
    assert(s.push(kv).drop_last() =~= s);
    assert(s.push(kv).last() == kv);
}

impl DeepView for Value {
    type V = ValueModel;

    open spec fn deep_view(&self) -> ValueModel {
        self.view()
    }
}

} // verus!
