//! The round-trip guarantee: the canonical text of any well-formed object
//! or array tree tokenizes to the tree's token sequence, and that token
//! sequence parses back to exactly the tree — key order and element order
//! preserved. This is the shape-exactness statement for the parser on every
//! valid text the encoder can spell.

use vstd::prelude::*;
use crate::json::token::TokenModel;
use crate::json::value::ValueModel;
use crate::json::error::ErrorModel;
use crate::json::tokenizer::{
    is_digit, is_number_char, spec_num_state, spec_num_step, spec_valid_number, spec_number_run,
    spec_scan_string, spec_read_end_word, spec_tokenize_from, spec_tokenize, prepend_tokens,
    NumState,
};
use crate::json::parser::{
    spec_parse, spec_parse_value, spec_parse_object, spec_parse_obj_tail, spec_parse_kv,
    spec_parse_list, spec_parse_list_tail, spec_analyse, past,
};
use crate::seqsplit::{lemma_chunk_split, lemma_chunk_one};
use crate::json::encoder::{
    str_ok, num_lit_ok, wf_value, wf_elems, wf_pairs, spec_encode, spec_encode_elems,
    spec_encode_pairs, spec_tokens_of, spec_tokens_of_elems, spec_tokens_of_pairs,
};

verus! {

/// A literal whose scan never went dead is made of number characters only.
proof fn lemma_nondead_chars(lit: Seq<char>)
    requires
        spec_num_state(lit) != NumState::Dead,
    ensures
        forall|k: int| 0 <= k < lit.len() ==> is_number_char(#[trigger] lit[k]),
    decreases lit.len(),
{
    if lit.len() > 0 {
        assert(spec_num_state(lit.drop_last()) != NumState::Dead);
        lemma_nondead_chars(lit.drop_last());
        assert(is_number_char(lit.last()));
        assert forall|k: int| 0 <= k < lit.len() implies is_number_char(#[trigger] lit[k]) by {
            if k < lit.len() - 1 {
                assert(lit.drop_last()[k] == lit[k]);
            } else {
                assert(lit[k] == lit.last());
            }
        }
    }
}

/// A valid numeric literal is made of number characters only.
proof fn lemma_valid_number_chars(lit: Seq<char>)
    requires
        spec_valid_number(lit),
    ensures
        forall|k: int| 0 <= k < lit.len() ==> is_number_char(#[trigger] lit[k]),
{
    lemma_nondead_chars(lit);
}

/// Scanning at the content of an encoded string literal finds exactly that
/// content and stops at the closing quote.
proof fn lemma_scan_encoded_string(text: Seq<char>, i: int, s: Seq<char>)
    requires
        str_ok(s),
        0 <= i,
        i + s.len() + 1 <= text.len(),
        text.subrange(i, i + s.len()) == s,
        text[i + s.len()] == '"',
    ensures
        spec_scan_string(text, i) == Some((s, (s.len() + 1) as nat)),
    decreases s.len(),
{
    if s.len() == 0 {
        assert(s =~= Seq::<char>::empty());
    } else if s[0] == '\\' {
        assert(text[i] == s[0]);
        assert(text[i + 1] == s[1]);
        assert(text.subrange(i + 2, i + s.len()) =~= s.skip(2));
        lemma_scan_encoded_string(text, i + 2, s.skip(2));
        assert(seq!['\\', text[i + 1]] + s.skip(2) =~= s);
    } else {
        assert(text[i] == s[0]);
        assert(s[0] != '"');
        assert(text.subrange(i + 1, i + s.len()) =~= s.skip(1));
        lemma_scan_encoded_string(text, i + 1, s.skip(1));
        assert(seq![text[i]] + s.skip(1) =~= s);
    }
}

/// Matching a keyword against text that spells it succeeds.
proof fn lemma_word_match(text: Seq<char>, i: int, word: Seq<char>)
    requires
        0 <= i,
        i + word.len() <= text.len(),
        text.subrange(i, i + word.len()) == word,
    ensures
        spec_read_end_word(text, i, word) == None::<ErrorModel>,
    decreases word.len(),
{
    if word.len() > 0 {
        assert(text[i] == word[0]);
        assert(text.subrange(i + 1, i + word.len()) =~= word.drop_first());
        lemma_word_match(text, i + 1, word.drop_first());
    }
}

/// The greedy number scan stops exactly at the first character off the
/// number character set.
proof fn lemma_number_run_exact(text: Seq<char>, i: int, n: int)
    requires
        0 <= i,
        0 <= n,
        i + n <= text.len(),
        forall|k: int| i <= k < i + n ==> is_number_char(#[trigger] text[k]),
        i + n == text.len() || !is_number_char(text[i + n]),
    ensures
        spec_number_run(text, i) == n,
    decreases n,
{
    if n > 0 {
        lemma_number_run_exact(text, i + 1, n - 1);
    }
}

/// Prefixing token sequences one after the other is the same as prefixing
/// their concatenation.
proof fn lemma_prepend_assoc(
    a: Seq<TokenModel>,
    b: Seq<TokenModel>,
    r: Result<Seq<TokenModel>, ErrorModel>,
)
    ensures
        prepend_tokens(a, prepend_tokens(b, r)) == prepend_tokens(a + b, r),
{
    match r {
        Ok(rest) => {
            assert(a + (b + rest) =~= (a + b) + rest);
        },
        Err(_) => {},
    }
}

/// Prefixing nothing changes nothing.
proof fn lemma_prepend_empty(r: Result<Seq<TokenModel>, ErrorModel>)
    ensures
        prepend_tokens(Seq::empty(), r) == r,
{
    match r {
        Ok(rest) => {
            assert(Seq::<TokenModel>::empty() + rest =~= rest);
        },
        Err(_) => {},
    }
}

/// The canonical text of a well-formed value, standing in `text` at
/// position `i` and followed by nothing that could extend a number scan,
/// tokenizes to the value's tokens followed by whatever tokenizes after it.
#[verifier::rlimit(50)]
proof fn lemma_tok_value(text: Seq<char>, i: int, v: ValueModel)
    requires
        wf_value(v),
        0 <= i,
        i + spec_encode(v).len() <= text.len(),
        text.subrange(i, i + spec_encode(v).len()) == spec_encode(v),
        i + spec_encode(v).len() == text.len() || !is_number_char(text[i + spec_encode(v).len()]),
    ensures
        spec_tokenize_from(text, i) == prepend_tokens(
            spec_tokens_of(v),
            spec_tokenize_from(text, i + spec_encode(v).len()),
        ),
    decreases v,
{
    match v {
        ValueModel::Null => {
            assert(text[i] == 'n');
            assert(text.subrange(i + 1, i + 4) =~= seq!['u', 'l', 'l']);
            lemma_word_match(text, i + 1, seq!['u', 'l', 'l']);
        },
        ValueModel::Bool(b) => {
            if b {
                assert(text[i] == 't');
                assert(text.subrange(i + 1, i + 4) =~= seq!['r', 'u', 'e']);
                lemma_word_match(text, i + 1, seq!['r', 'u', 'e']);
            } else {
                assert(text[i] == 'f');
                assert(text.subrange(i + 1, i + 5) =~= seq!['a', 'l', 's', 'e']);
                lemma_word_match(text, i + 1, seq!['a', 'l', 's', 'e']);
            }
        },
        ValueModel::Number(lit) => {
            lemma_valid_number_chars(lit);
            assert(text[i] == lit[0]);
            assert forall|k: int| i + 1 <= k < i + lit.len() implies is_number_char(
                #[trigger] text[k],
            ) by {
                assert(text[k] == lit[k - i]);
            }
            lemma_number_run_exact(text, i + 1, lit.len() - 1);
            assert(text.subrange(i, i + 1 + spec_number_run(text, i + 1)) == lit);
        },
        ValueModel::Str(s) => {
            lemma_chunk_split(text, i, seq!['"'] + s, seq!['"']);
            lemma_chunk_split(text, i, seq!['"'], s);
            lemma_chunk_one(text, i, '"');
            lemma_chunk_one(text, i + 1 + s.len(), '"');
            lemma_scan_encoded_string(text, i + 1, s);
        },
        ValueModel::Array(vs) => {
            let elems = spec_encode_elems(vs);
            let j2 = i + 1 + elems.len();
            let j3 = i + spec_encode(v).len();
            lemma_chunk_split(text, i, seq!['['] + elems, seq![']']);
            lemma_chunk_split(text, i, seq!['['], elems);
            lemma_chunk_one(text, i, '[');
            lemma_chunk_one(text, j2, ']');
            lemma_tok_elems(text, i + 1, vs);
            let a = seq![TokenModel::OpenBracket];
            let b = spec_tokens_of_elems(vs);
            let c = seq![TokenModel::CloseBracket];
            assert(spec_tokenize_from(text, j2) == prepend_tokens(c, spec_tokenize_from(text, j3)));
            lemma_prepend_assoc(b, c, spec_tokenize_from(text, j3));
            lemma_prepend_assoc(a, b + c, spec_tokenize_from(text, j3));
            assert(a + (b + c) =~= spec_tokens_of(v));
        },
        ValueModel::Object(kvs) => {
            let pairs = spec_encode_pairs(kvs);
            let j2 = i + 1 + pairs.len();
            let j3 = i + spec_encode(v).len();
            lemma_chunk_split(text, i, seq!['{'] + pairs, seq!['}']);
            lemma_chunk_split(text, i, seq!['{'], pairs);
            lemma_chunk_one(text, i, '{');
            lemma_chunk_one(text, j2, '}');
            lemma_tok_pairs(text, i + 1, kvs);
            let a = seq![TokenModel::OpenBrace];
            let b = spec_tokens_of_pairs(kvs);
            let c = seq![TokenModel::CloseBrace];
            assert(spec_tokenize_from(text, j2) == prepend_tokens(c, spec_tokenize_from(text, j3)));
            lemma_prepend_assoc(b, c, spec_tokenize_from(text, j3));
            lemma_prepend_assoc(a, b + c, spec_tokenize_from(text, j3));
            assert(a + (b + c) =~= spec_tokens_of(v));
        },
    }
}

/// As `lemma_tok_value`, for a comma-separated run of array elements.
proof fn lemma_tok_elems(text: Seq<char>, i: int, vs: Seq<ValueModel>)
    requires
        wf_elems(vs),
        0 <= i,
        i + spec_encode_elems(vs).len() <= text.len(),
        text.subrange(i, i + spec_encode_elems(vs).len()) == spec_encode_elems(vs),
        i + spec_encode_elems(vs).len() == text.len() || !is_number_char(
            text[i + spec_encode_elems(vs).len()],
        ),
    ensures
        spec_tokenize_from(text, i) == prepend_tokens(
            spec_tokens_of_elems(vs),
            spec_tokenize_from(text, i + spec_encode_elems(vs).len()),
        ),
    decreases vs,
{
    if vs.len() == 0 {
        lemma_prepend_empty(spec_tokenize_from(text, i));
    } else if vs.len() == 1 {
        lemma_tok_value(text, i, vs[0]);
    } else {
        let e0 = spec_encode(vs[0]);
        let rest = spec_encode_elems(vs.drop_first());
        let q = i + e0.len();
        let j2 = q + 1;
        let j3 = i + spec_encode_elems(vs).len();
        lemma_chunk_split(text, i, e0 + seq![','], rest);
        lemma_chunk_split(text, i, e0, seq![',']);
        lemma_chunk_one(text, q, ',');
        assert(!is_number_char(','));
        lemma_tok_value(text, i, vs[0]);
        lemma_tok_elems(text, j2, vs.drop_first());
        let a = spec_tokens_of(vs[0]);
        let b = seq![TokenModel::Comma];
        let c = spec_tokens_of_elems(vs.drop_first());
        assert(spec_tokenize_from(text, q) == prepend_tokens(b, spec_tokenize_from(text, j2)));
        lemma_prepend_assoc(b, c, spec_tokenize_from(text, j3));
        lemma_prepend_assoc(a, b + c, spec_tokenize_from(text, j3));
        assert(a + (b + c) =~= spec_tokens_of_elems(vs));
    }
}

/// As `lemma_tok_value`, for a comma-separated run of object pairs.
proof fn lemma_tok_pairs(text: Seq<char>, i: int, kvs: Seq<(Seq<char>, ValueModel)>)
    requires
        wf_pairs(kvs),
        0 <= i,
        i + spec_encode_pairs(kvs).len() <= text.len(),
        text.subrange(i, i + spec_encode_pairs(kvs).len()) == spec_encode_pairs(kvs),
        i + spec_encode_pairs(kvs).len() == text.len() || !is_number_char(
            text[i + spec_encode_pairs(kvs).len()],
        ),
    ensures
        spec_tokenize_from(text, i) == prepend_tokens(
            spec_tokens_of_pairs(kvs),
            spec_tokenize_from(text, i + spec_encode_pairs(kvs).len()),
        ),
    decreases kvs,
{
    if kvs.len() == 0 {
        lemma_prepend_empty(spec_tokenize_from(text, i));
    } else {
        let key = kvs[0].0;
        let e0 = spec_encode(kvs[0].1);
        let p1 = i + key.len() + 2;
        let p2 = p1 + 1;
        let p3 = p2 + e0.len();
        let j3 = i + spec_encode_pairs(kvs).len();
        if kvs.len() == 1 {
            lemma_chunk_split(text, i, seq!['"'] + key + seq!['"', ':'], e0);
        } else {
            let rest0 = spec_encode_pairs(kvs.drop_first());
            lemma_chunk_split(text, i, seq!['"'] + key + seq!['"', ':'] + e0 + seq![','], rest0);
            lemma_chunk_split(text, i, seq!['"'] + key + seq!['"', ':'] + e0, seq![',']);
            lemma_chunk_split(text, i, seq!['"'] + key + seq!['"', ':'], e0);
        }
        lemma_chunk_split(text, i, seq!['"'] + key, seq!['"', ':']);
        lemma_chunk_split(text, i, seq!['"'], key);
        lemma_chunk_one(text, i, '"');
        assert(seq!['"', ':'] =~= seq!['"'] + seq![':']);
        lemma_chunk_split(text, i + 1 + key.len(), seq!['"'], seq![':']);
        lemma_chunk_one(text, i + 1 + key.len(), '"');
        lemma_chunk_one(text, p1, ':');
        lemma_scan_encoded_string(text, i + 1, key);
        let a = seq![TokenModel::StrLit(key), TokenModel::Colon];
        let b = spec_tokens_of(kvs[0].1);
        assert(spec_tokenize_from(text, i) == prepend_tokens(
            seq![TokenModel::StrLit(key)],
            spec_tokenize_from(text, p1),
        ));
        assert(spec_tokenize_from(text, p1) == prepend_tokens(
            seq![TokenModel::Colon],
            spec_tokenize_from(text, p2),
        ));
        if kvs.len() == 1 {
            lemma_tok_value(text, p2, kvs[0].1);
            lemma_prepend_assoc(seq![TokenModel::Colon], b, spec_tokenize_from(text, j3));
            lemma_prepend_assoc(
                seq![TokenModel::StrLit(key)],
                seq![TokenModel::Colon] + b,
                spec_tokenize_from(text, j3),
            );
            assert(seq![TokenModel::StrLit(key)] + (seq![TokenModel::Colon] + b)
                =~= spec_tokens_of_pairs(kvs));
        } else {
            let rest = spec_encode_pairs(kvs.drop_first());
            lemma_chunk_one(text, p3, ',');
            assert(!is_number_char(','));
            lemma_tok_value(text, p2, kvs[0].1);
            lemma_tok_pairs(text, p3 + 1, kvs.drop_first());
            let c = spec_tokens_of_pairs(kvs.drop_first());
            assert(spec_tokenize_from(text, p3) == prepend_tokens(
                seq![TokenModel::Comma],
                spec_tokenize_from(text, p3 + 1),
            ));
            lemma_prepend_assoc(seq![TokenModel::Comma], c, spec_tokenize_from(text, j3));
            lemma_prepend_assoc(
                b,
                seq![TokenModel::Comma] + c,
                spec_tokenize_from(text, j3),
            );
            lemma_prepend_assoc(
                seq![TokenModel::Colon],
                b + (seq![TokenModel::Comma] + c),
                spec_tokenize_from(text, j3),
            );
            lemma_prepend_assoc(
                seq![TokenModel::StrLit(key)],
                seq![TokenModel::Colon] + (b + (seq![TokenModel::Comma] + c)),
                spec_tokenize_from(text, j3),
            );
            assert(seq![TokenModel::StrLit(key)] + (seq![TokenModel::Colon] + (b + (seq![
                TokenModel::Comma,
            ] + c))) =~= spec_tokens_of_pairs(kvs));
        }
    }
}

/// The canonical text of a well-formed value tokenizes to exactly the
/// value's token sequence.
pub proof fn lemma_tokenize_encoded(v: ValueModel)
    requires
        wf_value(v),
    ensures
        spec_tokenize(spec_encode(v)) == Ok::<Seq<TokenModel>, ErrorModel>(spec_tokens_of(v)),
{
    let text = spec_encode(v);
    assert(text.subrange(0, text.len() as int) =~= text);
    lemma_tok_value(text, 0, v);
    assert(spec_tokens_of(v) + Seq::<TokenModel>::empty() =~= spec_tokens_of(v));
}

/// The tokens that remain of an array body after a completed element: for
/// each further element a comma and the element's tokens, then the closing
/// bracket.
pub open spec fn toks_list_rest(vs: Seq<ValueModel>) -> Seq<TokenModel>
    decreases vs,
{
    if vs.len() == 0 {
        seq![TokenModel::CloseBracket]
    } else {
        seq![TokenModel::Comma] + spec_tokens_of(vs[0]) + toks_list_rest(vs.drop_first())
    }
}

/// The tokens that remain of an object body after a completed pair: for
/// each further pair a comma, the key, a colon and the value's tokens, then
/// the closing brace.
pub open spec fn toks_obj_rest(kvs: Seq<(Seq<char>, ValueModel)>) -> Seq<TokenModel>
    decreases kvs,
{
    if kvs.len() == 0 {
        seq![TokenModel::CloseBrace]
    } else {
        seq![TokenModel::Comma, TokenModel::StrLit(kvs[0].0), TokenModel::Colon]
            + spec_tokens_of(kvs[0].1) + toks_obj_rest(kvs.drop_first())
    }
}

/// A value's token sequence is never empty and never opens with a closing
/// bracket.
proof fn lemma_tokens_head(v: ValueModel)
    ensures
        spec_tokens_of(v).len() >= 1,
        !(spec_tokens_of(v)[0] matches TokenModel::CloseBracket),
{
    match v {
        ValueModel::Array(vs) => {
            assert(spec_tokens_of(v)[0] == TokenModel::OpenBracket);
        },
        ValueModel::Object(kvs) => {
            assert(spec_tokens_of(v)[0] == TokenModel::OpenBrace);
        },
        _ => {},
    }
}

/// An array body's token run, with its closing bracket, regrouped around
/// the first element.
proof fn lemma_elems_rest_split(vs: Seq<ValueModel>)
    requires
        vs.len() >= 1,
    ensures
        spec_tokens_of_elems(vs) + seq![TokenModel::CloseBracket] == spec_tokens_of(vs[0])
            + toks_list_rest(vs.drop_first()),
    decreases vs,
{
    if vs.len() == 1 {
        assert(spec_tokens_of_elems(vs) + seq![TokenModel::CloseBracket] =~= spec_tokens_of(vs[0])
            + toks_list_rest(vs.drop_first()));
    } else {
        lemma_elems_rest_split(vs.drop_first());
        assert(spec_tokens_of_elems(vs) + seq![TokenModel::CloseBracket] =~= spec_tokens_of(vs[0])
            + (seq![TokenModel::Comma] + (spec_tokens_of_elems(vs.drop_first()) + seq![
            TokenModel::CloseBracket,
        ])));
        assert(seq![TokenModel::Comma] + (spec_tokens_of(vs.drop_first()[0]) + toks_list_rest(
            vs.drop_first().drop_first(),
        )) =~= toks_list_rest(vs.drop_first()));
    }
}

/// An object body's token run, with its closing brace, regrouped around the
/// first pair.
proof fn lemma_pairs_rest_split(kvs: Seq<(Seq<char>, ValueModel)>)
    requires
        kvs.len() >= 1,
    ensures
        spec_tokens_of_pairs(kvs) + seq![TokenModel::CloseBrace] == seq![
            TokenModel::StrLit(kvs[0].0),
            TokenModel::Colon,
        ] + spec_tokens_of(kvs[0].1) + toks_obj_rest(kvs.drop_first()),
    decreases kvs,
{
    if kvs.len() == 1 {
        assert(spec_tokens_of_pairs(kvs) + seq![TokenModel::CloseBrace] =~= seq![
            TokenModel::StrLit(kvs[0].0),
            TokenModel::Colon,
        ] + spec_tokens_of(kvs[0].1) + toks_obj_rest(kvs.drop_first()));
    } else {
        lemma_pairs_rest_split(kvs.drop_first());
        assert(spec_tokens_of_pairs(kvs) + seq![TokenModel::CloseBrace] =~= (seq![
            TokenModel::StrLit(kvs[0].0),
            TokenModel::Colon,
        ] + spec_tokens_of(kvs[0].1)) + (seq![TokenModel::Comma] + (spec_tokens_of_pairs(
            kvs.drop_first(),
        ) + seq![TokenModel::CloseBrace])));
        assert(seq![TokenModel::Comma, TokenModel::StrLit(kvs.drop_first()[0].0), TokenModel::Colon]
            + spec_tokens_of(kvs.drop_first()[0].1) + toks_obj_rest(kvs.drop_first().drop_first())
            =~= seq![TokenModel::Comma] + ((seq![
            TokenModel::StrLit(kvs.drop_first()[0].0),
            TokenModel::Colon,
        ] + spec_tokens_of(kvs.drop_first()[0].1)) + toks_obj_rest(kvs.drop_first().drop_first())));
        assert(spec_tokens_of_pairs(kvs) + seq![TokenModel::CloseBrace] =~= seq![
            TokenModel::StrLit(kvs[0].0),
            TokenModel::Colon,
        ] + spec_tokens_of(kvs[0].1) + toks_obj_rest(kvs.drop_first()));
    }
}

/// The tokens of a well-formed value, standing in `toks` at position `i`,
/// parse to exactly that value, consuming exactly those tokens.
proof fn lemma_parse_value_toks(toks: Seq<TokenModel>, i: int, v: ValueModel)
    requires
        wf_value(v),
        0 <= i,
        i + spec_tokens_of(v).len() <= toks.len(),
        toks.subrange(i, i + spec_tokens_of(v).len()) == spec_tokens_of(v),
    ensures
        spec_parse_value(toks, i) == (
            Ok::<ValueModel, ErrorModel>(v),
            i + spec_tokens_of(v).len(),
        ),
    decreases v,
{
    match v {
        ValueModel::Null => {
            lemma_chunk_one(toks, i, TokenModel::Null);
        },
        ValueModel::Bool(b) => {
            if b {
                lemma_chunk_one(toks, i, TokenModel::True);
            } else {
                lemma_chunk_one(toks, i, TokenModel::False);
            }
        },
        ValueModel::Number(lit) => {
            lemma_chunk_one(toks, i, TokenModel::Number(lit));
        },
        ValueModel::Str(s) => {
            lemma_chunk_one(toks, i, TokenModel::StrLit(s));
        },
        ValueModel::Array(vs) => {
            let elems = spec_tokens_of_elems(vs);
            assert(spec_tokens_of(v) =~= seq![TokenModel::OpenBracket] + (elems + seq![
                TokenModel::CloseBracket,
            ]));
            lemma_chunk_split(toks, i, seq![TokenModel::OpenBracket], elems + seq![
                TokenModel::CloseBracket,
            ]);
            lemma_chunk_one(toks, i, TokenModel::OpenBracket);
            lemma_parse_list_toks(toks, i + 1, vs);
        },
        ValueModel::Object(kvs) => {
            let pairs = spec_tokens_of_pairs(kvs);
            assert(spec_tokens_of(v) =~= seq![TokenModel::OpenBrace] + (pairs + seq![
                TokenModel::CloseBrace,
            ]));
            lemma_chunk_split(toks, i, seq![TokenModel::OpenBrace], pairs + seq![
                TokenModel::CloseBrace,
            ]);
            lemma_chunk_one(toks, i, TokenModel::OpenBrace);
            lemma_parse_object_toks(toks, i + 1, kvs);
        },
    }
}

/// The token run of an array body (elements and closing bracket) parses to
/// the array of exactly those elements.
proof fn lemma_parse_list_toks(toks: Seq<TokenModel>, i: int, vs: Seq<ValueModel>)
    requires
        wf_elems(vs),
        0 <= i,
        i + spec_tokens_of_elems(vs).len() + 1 <= toks.len(),
        toks.subrange(i, i + spec_tokens_of_elems(vs).len() + 1) == spec_tokens_of_elems(vs)
            + seq![TokenModel::CloseBracket],
    ensures
        spec_parse_list(toks, i) == (
            Ok::<ValueModel, ErrorModel>(ValueModel::Array(vs)),
            i + spec_tokens_of_elems(vs).len() + 1,
        ),
    decreases vs,
{
    if vs.len() == 0 {
        lemma_chunk_one(toks, i, TokenModel::CloseBracket);
        assert(spec_parse_list(toks, i) == (
            Ok::<ValueModel, ErrorModel>(ValueModel::Array(Seq::empty())),
            i + 1,
        ));
        assert(ValueModel::Array(Seq::<ValueModel>::empty()) == ValueModel::Array(vs)) by {
            assert(vs =~= Seq::<ValueModel>::empty());
        }
    } else {
        lemma_elems_rest_split(vs);
        let t0 = spec_tokens_of(vs[0]);
        let rest = toks_list_rest(vs.drop_first());
        assert(t0 + rest == spec_tokens_of_elems(vs) + seq![TokenModel::CloseBracket]);
        assert(t0.len() + rest.len() == spec_tokens_of_elems(vs).len() + 1);
        assert(toks.subrange(i, i + t0.len() + rest.len()) == t0 + rest);
        lemma_chunk_split(toks, i, t0, rest);
        lemma_tokens_head(vs[0]);
        assert(toks[i] == t0[0]) by {
            assert(toks.subrange(i, i + t0.len())[0] == toks[i]);
        }
        lemma_parse_value_toks(toks, i, vs[0]);
        let j = i + t0.len();
        assert(past(i, j) == j);
        lemma_parse_list_tail_toks(toks, j, seq![vs[0]], vs.drop_first());
        assert(seq![vs[0]] + vs.drop_first() =~= vs);
    }
}

/// The remaining token run of an array body parses to the array of the
/// accumulated and the remaining elements.
proof fn lemma_parse_list_tail_toks(
    toks: Seq<TokenModel>,
    i: int,
    acc: Seq<ValueModel>,
    vs: Seq<ValueModel>,
)
    requires
        wf_elems(vs),
        0 <= i,
        i + toks_list_rest(vs).len() <= toks.len(),
        toks.subrange(i, i + toks_list_rest(vs).len()) == toks_list_rest(vs),
    ensures
        spec_parse_list_tail(toks, i, acc) == (
            Ok::<ValueModel, ErrorModel>(ValueModel::Array(acc + vs)),
            i + toks_list_rest(vs).len(),
        ),
    decreases vs,
{
    if vs.len() == 0 {
        lemma_chunk_one(toks, i, TokenModel::CloseBracket);
        assert(acc + vs =~= acc);
    } else {
        let t0 = spec_tokens_of(vs[0]);
        let rest = toks_list_rest(vs.drop_first());
        assert(toks_list_rest(vs) =~= seq![TokenModel::Comma] + (t0 + rest));
        assert(toks_list_rest(vs).len() == 1 + (t0.len() + rest.len()));
        assert(toks.subrange(i, i + 1 + (t0 + rest).len()) == seq![TokenModel::Comma] + (t0
            + rest));
        lemma_chunk_split(toks, i, seq![TokenModel::Comma], t0 + rest);
        lemma_chunk_one(toks, i, TokenModel::Comma);
        lemma_chunk_split(toks, i + 1, t0, rest);
        lemma_tokens_head(vs[0]);
        lemma_parse_value_toks(toks, i + 1, vs[0]);
        let j = i + 1 + t0.len();
        assert(past(i + 1, j) == j);
        lemma_parse_list_tail_toks(toks, j, acc.push(vs[0]), vs.drop_first());
        assert(acc.push(vs[0]) + vs.drop_first() =~= acc + vs);
    }
}

/// The token run of an object body (pairs and closing brace) parses to
/// exactly those pairs, in order.
proof fn lemma_parse_object_toks(toks: Seq<TokenModel>, i: int, kvs: Seq<(Seq<char>, ValueModel)>)
    requires
        wf_pairs(kvs),
        0 <= i,
        i + spec_tokens_of_pairs(kvs).len() + 1 <= toks.len(),
        toks.subrange(i, i + spec_tokens_of_pairs(kvs).len() + 1) == spec_tokens_of_pairs(kvs)
            + seq![TokenModel::CloseBrace],
    ensures
        spec_parse_object(toks, i) == (
            Ok::<Seq<(Seq<char>, ValueModel)>, ErrorModel>(kvs),
            i + spec_tokens_of_pairs(kvs).len() + 1,
        ),
    decreases kvs,
{
    if kvs.len() == 0 {
        lemma_chunk_one(toks, i, TokenModel::CloseBrace);
        assert(Ok::<Seq<(Seq<char>, ValueModel)>, ErrorModel>(Seq::empty()) == Ok::<
            Seq<(Seq<char>, ValueModel)>,
            ErrorModel,
        >(kvs)) by {
            assert(kvs =~= Seq::<(Seq<char>, ValueModel)>::empty());
        }
    } else {
        lemma_pairs_rest_split(kvs);
        let key = kvs[0].0;
        let t0 = spec_tokens_of(kvs[0].1);
        let rest = toks_obj_rest(kvs.drop_first());
        assert(spec_tokens_of_pairs(kvs) + seq![TokenModel::CloseBrace] =~= seq![
            TokenModel::StrLit(key),
        ] + (seq![TokenModel::Colon] + (t0 + rest)));
        assert(spec_tokens_of_pairs(kvs).len() + 1 == 1 + (1 + (t0.len() + rest.len())));
        assert(toks.subrange(i, i + 1 + (seq![TokenModel::Colon] + (t0 + rest)).len()) == seq![
            TokenModel::StrLit(key),
        ] + (seq![TokenModel::Colon] + (t0 + rest)));
        lemma_chunk_split(toks, i, seq![TokenModel::StrLit(key)], seq![TokenModel::Colon] + (t0
            + rest));
        lemma_chunk_one(toks, i, TokenModel::StrLit(key));
        lemma_chunk_split(toks, i + 1, seq![TokenModel::Colon], t0 + rest);
        lemma_chunk_one(toks, i + 1, TokenModel::Colon);
        lemma_chunk_split(toks, i + 2, t0, rest);
        lemma_parse_value_toks(toks, i + 2, kvs[0].1);
        let j = i + 2 + t0.len();
        assert((key, kvs[0].1) == kvs[0]);
        assert(past(i + 1, j) == j);
        lemma_parse_obj_tail_toks(toks, j, seq![kvs[0]], kvs.drop_first());
        assert(seq![kvs[0]] + kvs.drop_first() =~= kvs);
    }
}

/// The remaining token run of an object body parses to the accumulated and
/// the remaining pairs, in order.
proof fn lemma_parse_obj_tail_toks(
    toks: Seq<TokenModel>,
    i: int,
    acc: Seq<(Seq<char>, ValueModel)>,
    kvs: Seq<(Seq<char>, ValueModel)>,
)
    requires
        wf_pairs(kvs),
        0 <= i,
        i + toks_obj_rest(kvs).len() <= toks.len(),
        toks.subrange(i, i + toks_obj_rest(kvs).len()) == toks_obj_rest(kvs),
    ensures
        spec_parse_obj_tail(toks, i, acc) == (
            Ok::<Seq<(Seq<char>, ValueModel)>, ErrorModel>(acc + kvs),
            i + toks_obj_rest(kvs).len(),
        ),
    decreases kvs,
{
    if kvs.len() == 0 {
        lemma_chunk_one(toks, i, TokenModel::CloseBrace);
        assert(acc + kvs =~= acc);
    } else {
        let key = kvs[0].0;
        let t0 = spec_tokens_of(kvs[0].1);
        let rest = toks_obj_rest(kvs.drop_first());
        assert(toks_obj_rest(kvs) =~= seq![TokenModel::Comma] + (seq![TokenModel::StrLit(key)]
            + (seq![TokenModel::Colon] + (t0 + rest))));
        assert(toks_obj_rest(kvs).len() == 1 + (1 + (1 + (t0.len() + rest.len()))));
        assert(toks.subrange(i, i + 1 + (seq![TokenModel::StrLit(key)] + (seq![TokenModel::Colon]
            + (t0 + rest))).len()) == seq![TokenModel::Comma] + (seq![TokenModel::StrLit(key)]
            + (seq![TokenModel::Colon] + (t0 + rest))));
        lemma_chunk_split(toks, i, seq![TokenModel::Comma], seq![TokenModel::StrLit(key)] + (seq![
            TokenModel::Colon,
        ] + (t0 + rest)));
        lemma_chunk_one(toks, i, TokenModel::Comma);
        lemma_chunk_split(toks, i + 1, seq![TokenModel::StrLit(key)], seq![TokenModel::Colon] + (t0
            + rest));
        lemma_chunk_one(toks, i + 1, TokenModel::StrLit(key));
        lemma_chunk_split(toks, i + 2, seq![TokenModel::Colon], t0 + rest);
        lemma_chunk_one(toks, i + 2, TokenModel::Colon);
        lemma_chunk_split(toks, i + 3, t0, rest);
        lemma_tokens_head(kvs[0].1);
        lemma_parse_value_toks(toks, i + 3, kvs[0].1);
        let j = i + 3 + t0.len();
        assert(rest.len() >= 1);
        assert((key, kvs[0].1) == kvs[0]);
        assert(past(i + 2, j) == j);
        lemma_parse_obj_tail_toks(toks, j, acc.push(kvs[0]), kvs.drop_first());
        assert(acc.push(kvs[0]) + kvs.drop_first() =~= acc + kvs);
        assert(spec_parse_kv(toks, i + 2, key) == (
            Ok::<(Seq<char>, ValueModel), ErrorModel>((key, kvs[0].1)),
            j,
        ));
    }
}

/// The token sequence of a well-formed object or array tree parses to
/// exactly that tree.
pub proof fn lemma_parse_canonical(v: ValueModel)
    requires
        wf_value(v),
        (v matches ValueModel::Object(_)) || (v matches ValueModel::Array(_)),
    ensures
        spec_parse(spec_tokens_of(v)) == Ok::<ValueModel, ErrorModel>(v),
{
    let toks = spec_tokens_of(v);
    match v {
        ValueModel::Array(vs) => {
            let elems = spec_tokens_of_elems(vs);
            assert(toks[0] == TokenModel::OpenBracket);
            assert(toks.subrange(1, toks.len() as int) =~= elems + seq![
                TokenModel::CloseBracket,
            ]);
            lemma_parse_list_toks(toks, 1, vs);
        },
        ValueModel::Object(kvs) => {
            let pairs = spec_tokens_of_pairs(kvs);
            assert(toks[0] == TokenModel::OpenBrace);
            assert(toks.subrange(1, toks.len() as int) =~= pairs + seq![TokenModel::CloseBrace]);
            lemma_parse_object_toks(toks, 1, kvs);
        },
        _ => {},
    }
}

/// The round-trip law: tokenizing and parsing the canonical text of any
/// well-formed object or array tree succeeds and yields exactly that tree,
/// key order and element order preserved.
pub proof fn lemma_round_trip(v: ValueModel)
    requires
        wf_value(v),
        (v matches ValueModel::Object(_)) || (v matches ValueModel::Array(_)),
    ensures
        spec_analyse(spec_encode(v)) == Ok::<ValueModel, ErrorModel>(v),
{
    lemma_tokenize_encoded(v);
    lemma_parse_canonical(v);
}

} // verus!
