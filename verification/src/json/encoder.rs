//! A companion encoder: the canonical text of a value tree, without any
//! whitespace. Its purpose is the round-trip guarantee: tokenizing and
//! parsing the canonical text of any well-formed object or array tree gives
//! back exactly that tree, key order and element order preserved.

use vstd::prelude::*;
use vstd::string::StringExecFns;
use crate::json::token::TokenModel;
use crate::json::value::{Value, KV, ValueModel, seq_value_view, seq_kv_view};
use crate::json::tokenizer::{is_digit, spec_valid_number};
use crate::json::parser::spec_valid_str_value;
use crate::text::push_char;

verus! {

/// Whether a stored string content can stand between quotes and scan back
/// to itself: no raw quote (one may only occur escaped, right after a
/// backslash), and no trailing lone backslash.
pub open spec fn str_ok(s: Seq<char>) -> bool
    decreases s.len(),
{
    if s.len() == 0 {
        true
    } else if s[0] == '"' {
        false
    } else if s[0] == '\\' {
        s.len() >= 2 && str_ok(s.skip(2))
    } else {
        str_ok(s.skip(1))
    }
}

/// Whether a stored numeric literal scans back to itself: it must pass the
/// floating-point literal grammar and begin with a digit or a minus sign,
/// the two characters that open a number scan.
pub open spec fn num_lit_ok(lit: Seq<char>) -> bool {
    spec_valid_number(lit) && lit.len() > 0 && (is_digit(lit[0]) || lit[0] == '-')
}

/// Whether every element of a sequence of value models is well formed.
pub open spec fn wf_elems(vs: Seq<ValueModel>) -> bool
    decreases vs,
{
    if vs.len() == 0 {
        true
    } else {
        wf_value(vs[0]) && wf_elems(vs.drop_first())
    }
}

/// Whether every pair of an object model is well formed: the key scans
/// back to itself and the value is well formed.
pub open spec fn wf_pairs(kvs: Seq<(Seq<char>, ValueModel)>) -> bool
    decreases kvs,
{
    if kvs.len() == 0 {
        true
    } else {
        str_ok(kvs[0].0) && wf_value(kvs[0].1) && wf_pairs(kvs.drop_first())
    }
}

/// Whether a value model is well formed, that is, representable as JSON
/// text that scans and parses back to it: numeric literals match the
/// grammar and begin with a digit or minus, string contents have no raw
/// quote, no trailing lone backslash, and (as values) no raw line break or
/// tab, and all children are well formed.
pub open spec fn wf_value(v: ValueModel) -> bool
    decreases v,
{
    match v {
        ValueModel::Null => true,
        ValueModel::Bool(_) => true,
        ValueModel::Number(lit) => num_lit_ok(lit),
        ValueModel::Str(s) => str_ok(s) && spec_valid_str_value(s),
        ValueModel::Array(vs) => wf_elems(vs),
        ValueModel::Object(kvs) => wf_pairs(kvs),
    }
}

/// The canonical text of a value: no whitespace, string contents kept
/// verbatim between quotes, numeric literals kept verbatim.
pub open spec fn spec_encode(v: ValueModel) -> Seq<char>
    decreases v,
{
    match v {
        ValueModel::Null => seq!['n', 'u', 'l', 'l'],
        ValueModel::Bool(b) => if b {
            seq!['t', 'r', 'u', 'e']
        } else {
            seq!['f', 'a', 'l', 's', 'e']
        },
        ValueModel::Number(lit) => lit,
        ValueModel::Str(s) => seq!['"'] + s + seq!['"'],
        ValueModel::Array(vs) => seq!['['] + spec_encode_elems(vs) + seq![']'],
        ValueModel::Object(kvs) => seq!['{'] + spec_encode_pairs(kvs) + seq!['}'],
    }
}

/// The canonical text of array elements, comma-separated.
pub open spec fn spec_encode_elems(vs: Seq<ValueModel>) -> Seq<char>
    decreases vs,
{
    if vs.len() == 0 {
        Seq::empty()
    } else if vs.len() == 1 {
        spec_encode(vs[0])
    } else {
        spec_encode(vs[0]) + seq![','] + spec_encode_elems(vs.drop_first())
    }
}

/// The canonical text of object pairs, comma-separated.
pub open spec fn spec_encode_pairs(kvs: Seq<(Seq<char>, ValueModel)>) -> Seq<char>
    decreases kvs,
{
    if kvs.len() == 0 {
        Seq::empty()
    } else if kvs.len() == 1 {
        seq!['"'] + kvs[0].0 + seq!['"', ':'] + spec_encode(kvs[0].1)
    } else {
        seq!['"'] + kvs[0].0 + seq!['"', ':'] + spec_encode(kvs[0].1) + seq![',']
            + spec_encode_pairs(kvs.drop_first())
    }
}

/// The token sequence the canonical text of a value scans to.
pub open spec fn spec_tokens_of(v: ValueModel) -> Seq<TokenModel>
    decreases v,
{
    match v {
        ValueModel::Null => seq![TokenModel::Null],
        ValueModel::Bool(b) => if b {
            seq![TokenModel::True]
        } else {
            seq![TokenModel::False]
        },
        ValueModel::Number(lit) => seq![TokenModel::Number(lit)],
        ValueModel::Str(s) => seq![TokenModel::StrLit(s)],
        ValueModel::Array(vs) => seq![TokenModel::OpenBracket] + spec_tokens_of_elems(vs)
            + seq![TokenModel::CloseBracket],
        ValueModel::Object(kvs) => seq![TokenModel::OpenBrace] + spec_tokens_of_pairs(kvs)
            + seq![TokenModel::CloseBrace],
    }
}

/// The tokens of array elements, comma-separated.
pub open spec fn spec_tokens_of_elems(vs: Seq<ValueModel>) -> Seq<TokenModel>
    decreases vs,
{
    if vs.len() == 0 {
        Seq::empty()
    } else if vs.len() == 1 {
        spec_tokens_of(vs[0])
    } else {
        spec_tokens_of(vs[0]) + seq![TokenModel::Comma] + spec_tokens_of_elems(vs.drop_first())
    }
}

/// The tokens of object pairs, comma-separated.
pub open spec fn spec_tokens_of_pairs(kvs: Seq<(Seq<char>, ValueModel)>) -> Seq<TokenModel>
    decreases kvs,
{
    if kvs.len() == 0 {
        Seq::empty()
    } else if kvs.len() == 1 {
        seq![TokenModel::StrLit(kvs[0].0), TokenModel::Colon] + spec_tokens_of(kvs[0].1)
    } else {
        seq![TokenModel::StrLit(kvs[0].0), TokenModel::Colon] + spec_tokens_of(kvs[0].1)
            + seq![TokenModel::Comma] + spec_tokens_of_pairs(kvs.drop_first())
    }
}

/// The canonical text of a value, as an owned string.
pub fn to_text(v: &Value) -> (r: String)
    ensures
        r@ == spec_encode(v@),
    decreases v, 0int,
{
    match v {
        Value::Null => {
            let r = String::from_str("null");
            proof {
                reveal_strlit("null");
                assert(r@ =~= seq!['n', 'u', 'l', 'l']);
            }
            r
        },
        Value::Bool(b) => {
            if *b {
                let r = String::from_str("true");
                proof {
                    reveal_strlit("true");
                    assert(r@ =~= seq!['t', 'r', 'u', 'e']);
                }
                r
            } else {
                let r = String::from_str("false");
                proof {
                    reveal_strlit("false");
                    assert(r@ =~= seq!['f', 'a', 'l', 's', 'e']);
                }
                r
            }
        },
        Value::Number(lit) => lit.clone(),
        Value::Str(s) => {
            let mut out = String::from_str("\"");
            out.append(s.as_str());
            out.append("\"");
            proof {
                reveal_strlit("\"");
                assert(out@ =~= seq!['"'] + s@ + seq!['"']);
            }
            out
        },
        Value::Array(vs) => {
            let mut out = String::from_str("[");
            let elems = to_text_elems(vs, 0);
            out.append(elems.as_str());
            out.append("]");
            proof {
                reveal_strlit("[");
                reveal_strlit("]");
                assert(seq_value_view(vs@).skip(0) =~= seq_value_view(vs@));
                assert(out@ =~= seq!['['] + spec_encode_elems(seq_value_view(vs@)) + seq![']']);
            }
            out
        },
        Value::Object(kvs) => {
            let mut out = String::from_str("{");
            let pairs = to_text_pairs(kvs, 0);
            out.append(pairs.as_str());
            out.append("}");
            proof {
                reveal_strlit("{");
                reveal_strlit("}");
                assert(seq_kv_view(kvs@).skip(0) =~= seq_kv_view(kvs@));
                assert(out@ =~= seq!['{'] + spec_encode_pairs(seq_kv_view(kvs@)) + seq!['}']);
            }
            out
        },
    }
}

/// The canonical text of the elements of `vs` from index `k` on.
fn to_text_elems(vs: &Vec<Value>, k: usize) -> (r: String)
    requires
        k <= vs@.len(),
    ensures
        r@ == spec_encode_elems(seq_value_view(vs@).skip(k as int)),
    decreases vs@, vs@.len() - k,
{
    proof {
        crate::json::value::lemma_seq_value_view(vs@);
    }
    if k >= vs.len() {
        let r = String::new();
        return r;
    }
    let mut out = to_text(&vs[k]);
    proof {
        assert(seq_value_view(vs@).skip(k as int)[0] == seq_value_view(vs@)[k as int]);
        assert(seq_value_view(vs@).skip(k as int).drop_first() =~= seq_value_view(vs@).skip(
            k + 1,
        ));
    }
    if k + 1 < vs.len() {
        out.append(",");
        let rest = to_text_elems(vs, k + 1);
        out.append(rest.as_str());
        proof {
            reveal_strlit(",");
            assert(out@ =~= spec_encode(vs@[k as int]@) + seq![','] + spec_encode_elems(
                seq_value_view(vs@).skip(k + 1),
            ));
        }
    } else {
        proof {
            assert(seq_value_view(vs@).skip(k as int).len() == 1);
        }
    }
    out
}

/// The canonical text of the pairs of `kvs` from index `k` on.
fn to_text_pairs(kvs: &Vec<KV>, k: usize) -> (r: String)
    requires
        k <= kvs@.len(),
    ensures
        r@ == spec_encode_pairs(seq_kv_view(kvs@).skip(k as int)),
    decreases kvs@, kvs@.len() - k,
{
    proof {
        crate::json::value::lemma_seq_kv_view(kvs@);
    }
    if k >= kvs.len() {
        let r = String::new();
        return r;
    }
    let mut out = String::from_str("\"");
    let kv = &kvs[k];
    out.append(kv.0.as_str());
    out.append("\":");
    let val = to_text(&kv.1);
    out.append(val.as_str());
    proof {
        reveal_strlit("\"");
        reveal_strlit("\":");
        assert(seq_kv_view(kvs@).skip(k as int)[0] == seq_kv_view(kvs@)[k as int]);
        assert(seq_kv_view(kvs@).skip(k as int).drop_first() =~= seq_kv_view(kvs@).skip(k + 1));
        assert(out@ =~= seq!['"'] + kvs@[k as int].0@ + seq!['"', ':'] + spec_encode(
            kvs@[k as int].1@,
        ));
    }
    if k + 1 < kvs.len() {
        out.append(",");
        let rest = to_text_pairs(kvs, k + 1);
        out.append(rest.as_str());
        proof {
            reveal_strlit(",");
        }
    } else {
        proof {
            assert(seq_kv_view(kvs@).skip(k as int).len() == 1);
        }
    }
    out
}

} // verus!
