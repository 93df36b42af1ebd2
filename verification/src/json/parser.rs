//! The recursive-descent parser: consumes the token sequence with one-token
//! lookahead and no backtracking, building a value tree or failing at the
//! first grammar violation.
//!
//! The top-level entry requires the first token to be an open brace or an
//! open bracket, and the cursor must be exhausted once the top-level value
//! is parsed.

use vstd::prelude::*;
use vstd::string::StrSliceExecFns;
use crate::json::token::{Token, TokenModel};
use crate::json::value::{Value, KV, ValueModel, seq_value_view, seq_kv_view};
use crate::json::value::{lemma_seq_value_view_push, lemma_seq_kv_view_push};
use crate::json::error::{Error, ErrorModel};
use crate::json::tokenizer::{spec_tokenize, tokenize};

verus! {

/// Marker carried by a syntax error raised where an object begins.
pub const MARK_OBJECT_START: u32 = 1;

/// Marker carried by a syntax error raised between the pairs of an object.
pub const MARK_OBJECT_SEP: u32 = 2;

/// Marker carried by a syntax error raised where a pair's colon is due.
pub const MARK_PAIR_COLON: u32 = 3;

/// Marker carried by a syntax error raised where a value is due.
pub const MARK_VALUE: u32 = 4;

/// Marker carried by a syntax error raised between the elements of an array.
pub const MARK_LIST_SEP: u32 = 5;

/// Whether a string value is free of raw line breaks and tabs; checked on
/// the decoded literal content when it stands as a value (keys are not
/// checked).
pub open spec fn spec_valid_str_value(s: Seq<char>) -> bool {
    forall|k: int| 0 <= k < s.len() ==> s[k] != '\n' && s[k] != '\t'
}

/// A continuation position that strictly advances: the position `j` a
/// sub-parse returned, clamped past `a` so that every grammar production
/// consumes at least one token. Whenever the sub-parse succeeded, `j`
/// already lies past `a` and the clamp changes nothing.
pub open spec fn past(a: int, j: int) -> int {
    if j > a {
        j
    } else {
        a + 1
    }
}

/// How many tokens remain at position `i`, clamped to zero; the termination
/// measure of the parsing functions.
pub open spec fn spec_toks_remaining(toks: Seq<TokenModel>, i: int) -> int {
    if toks.len() - i >= 0 {
        toks.len() - i
    } else {
        0
    }
}

/// Parses one value at position `i`: an object, an array, a string literal
/// free of raw line breaks and tabs, a keyword, or a number. Returns the
/// parsed value and the position just past it.
pub open spec fn spec_parse_value(toks: Seq<TokenModel>, i: int) -> (Result<
    ValueModel,
    ErrorModel,
>, int)
    decreases spec_toks_remaining(toks, i), 0int,
{
    if i < 0 || i >= toks.len() {
        (Err(ErrorModel::MissingValue), i)
    } else {
        match toks[i] {
            TokenModel::OpenBrace => {
                let (r, j) = spec_parse_object(toks, i + 1);
                match r {
                    Ok(kvs) => (Ok(ValueModel::Object(kvs)), j),
                    Err(e) => (Err(e), j),
                }
            },
            TokenModel::OpenBracket => spec_parse_list(toks, i + 1),
            TokenModel::StrLit(s) => if spec_valid_str_value(s) {
                (Ok(ValueModel::Str(s)), i + 1)
            } else {
                (Err(ErrorModel::LineBreakInLiteral), i)
            },
            TokenModel::True => (Ok(ValueModel::Bool(true)), i + 1),
            TokenModel::False => (Ok(ValueModel::Bool(false)), i + 1),
            TokenModel::Null => (Ok(ValueModel::Null), i + 1),
            TokenModel::Number(s) => (Ok(ValueModel::Number(s)), i + 1),
            _ => (Err(ErrorModel::SyntaxError(toks[i], MARK_VALUE)), i),
        }
    }
}

/// Parses an object body at position `i`, just after the opening brace: an
/// immediate close brace yields the empty object, an immediate comma is a
/// trailing comma, and a string literal begins the first pair.
pub open spec fn spec_parse_object(toks: Seq<TokenModel>, i: int) -> (Result<
    Seq<(Seq<char>, ValueModel)>,
    ErrorModel,
>, int)
    decreases spec_toks_remaining(toks, i), 1int,
{
    if i < 0 || i >= toks.len() {
        (Err(ErrorModel::MissingClosingBracket), i)
    } else {
        match toks[i] {
            TokenModel::CloseBrace => (Ok(Seq::empty()), i + 1),
            TokenModel::Comma => (Err(ErrorModel::TrailingComma), i),
            TokenModel::StrLit(key) => {
                let (r, j) = spec_parse_kv(toks, i + 1, key);
                match r {
                    Ok(p) => spec_parse_obj_tail(toks, past(i + 1, j), seq![p]),
                    Err(e) => (Err(e), j),
                }
            },
            _ => (Err(ErrorModel::SyntaxError(toks[i], MARK_OBJECT_START)), i),
        }
    }
}

/// Parses the continuation of an object body after a completed pair: a
/// comma continues with the key of the next pair, a close brace finishes.
pub open spec fn spec_parse_obj_tail(
    toks: Seq<TokenModel>,
    i: int,
    acc: Seq<(Seq<char>, ValueModel)>,
) -> (Result<Seq<(Seq<char>, ValueModel)>, ErrorModel>, int)
    decreases spec_toks_remaining(toks, i), 1int,
{
    if i < 0 || i >= toks.len() {
        (Err(ErrorModel::MissingClosingBracket), i)
    } else {
        match toks[i] {
            TokenModel::CloseBrace => (Ok(acc), i + 1),
            TokenModel::Comma => if i + 1 >= toks.len() {
                (Err(ErrorModel::TrailingComma), i + 1)
            } else {
                match toks[i + 1] {
                    TokenModel::StrLit(key) => {
                        let (r, j) = spec_parse_kv(toks, i + 2, key);
                        match r {
                            Ok(p) => spec_parse_obj_tail(toks, past(i + 2, j), acc.push(p)),
                            Err(e) => (Err(e), j),
                        }
                    },
                    _ => (Err(ErrorModel::TrailingComma), i + 1),
                }
            },
            _ => (Err(ErrorModel::SyntaxError(toks[i], MARK_OBJECT_SEP)), i),
        }
    }
}

/// Parses the remainder of a pair at position `i`, just after its key: a
/// colon, then the value.
pub open spec fn spec_parse_kv(toks: Seq<TokenModel>, i: int, key: Seq<char>) -> (Result<
    (Seq<char>, ValueModel),
    ErrorModel,
>, int)
    decreases spec_toks_remaining(toks, i), 1int,
{
    if i < 0 || i >= toks.len() {
        (Err(ErrorModel::MissingValue), i)
    } else {
        match toks[i] {
            TokenModel::Colon => {
                let (r, j) = spec_parse_value(toks, i + 1);
                match r {
                    Ok(v) => (Ok((key, v)), j),
                    Err(e) => (Err(e), j),
                }
            },
            _ => (Err(ErrorModel::SyntaxError(toks[i], MARK_PAIR_COLON)), i),
        }
    }
}

/// Parses an array body at position `i`, just after the opening bracket: an
/// immediate close bracket yields the empty array, otherwise elements
/// separated by commas.
pub open spec fn spec_parse_list(toks: Seq<TokenModel>, i: int) -> (Result<
    ValueModel,
    ErrorModel,
>, int)
    decreases spec_toks_remaining(toks, i), 1int,
{
    if i < 0 || i >= toks.len() {
        (Err(ErrorModel::MissingValue), i)
    } else if (toks[i] matches TokenModel::CloseBracket) {
        (Ok(ValueModel::Array(Seq::empty())), i + 1)
    } else {
        let (r, j) = spec_parse_value(toks, i);
        match r {
            Ok(v) => spec_parse_list_tail(toks, past(i, j), seq![v]),
            Err(e) => (Err(e), j),
        }
    }
}

/// Parses the continuation of an array body after a completed element: a
/// comma continues with the next element, a close bracket finishes.
pub open spec fn spec_parse_list_tail(toks: Seq<TokenModel>, i: int, acc: Seq<ValueModel>) -> (
    Result<ValueModel, ErrorModel>,
    int,
)
    decreases spec_toks_remaining(toks, i), 1int,
{
    if i < 0 || i >= toks.len() {
        (Err(ErrorModel::MissingClosingBracket), i)
    } else {
        match toks[i] {
            TokenModel::CloseBracket => (Ok(ValueModel::Array(acc)), i + 1),
            TokenModel::Comma => {
                let (r, j) = spec_parse_value(toks, i + 1);
                match r {
                    Ok(v) => spec_parse_list_tail(toks, past(i + 1, j), acc.push(v)),
                    Err(e) => (Err(e), j),
                }
            },
            _ => (Err(ErrorModel::SyntaxError(toks[i], MARK_LIST_SEP)), i),
        }
    }
}

/// Parses a whole token sequence: the first token must open an object or an
/// array, and no token may remain after the top-level value.
pub open spec fn spec_parse(toks: Seq<TokenModel>) -> Result<ValueModel, ErrorModel> {
    if toks.len() == 0 {
        Err(ErrorModel::MustBeginWithBracket)
    } else {
        match toks[0] {
            TokenModel::OpenBrace => {
                let (r, j) = spec_parse_object(toks, 1);
                match r {
                    Ok(kvs) => if j == toks.len() {
                        Ok(ValueModel::Object(kvs))
                    } else {
                        Err(ErrorModel::ExtraValue)
                    },
                    Err(e) => Err(e),
                }
            },
            TokenModel::OpenBracket => {
                let (r, j) = spec_parse_list(toks, 1);
                match r {
                    Ok(v) => if j == toks.len() {
                        Ok(v)
                    } else {
                        Err(ErrorModel::ExtraValue)
                    },
                    Err(e) => Err(e),
                }
            },
            _ => Err(ErrorModel::MustBeginWithBracket),
        }
    }
}

/// Tokenizing and then parsing a whole text.
pub open spec fn spec_analyse(text: Seq<char>) -> Result<ValueModel, ErrorModel> {
    match spec_tokenize(text) {
        Ok(ts) => spec_parse(ts),
        Err(e) => Err(e),
    }
}

/// Law: whenever the token sequence is empty or its first token opens
/// neither an object nor an array, parsing fails with
/// `MustBeginWithBracket`.
pub proof fn lemma_must_begin_with_bracket(toks: Seq<TokenModel>)
    requires
        toks.len() == 0 || !(toks[0] matches TokenModel::OpenBrace || toks[0]
            matches TokenModel::OpenBracket),
    ensures
        spec_parse(toks) == Err::<ValueModel, ErrorModel>(ErrorModel::MustBeginWithBracket),
{
}

/// Parses one value at position `i`.
fn parse_value(toks: &Vec<Token>, i: usize) -> (r: (Result<Value, Error>, usize))
    requires
        i <= toks@.len(),
    ensures
        ({
            let (sr, sj) = spec_parse_value(toks.deep_view(), i as int);
            match r.0 {
                Ok(v) => sr matches Ok(m) && v@ == m && r.1 == sj && i < r.1 <= toks@.len(),
                Err(e) => sr matches Err(me) && e@ == me,
            }
        }),
    decreases toks@.len() - i, 0int,
{
    if i >= toks.len() {
        return (Err(Error::MissingValue), i);
    }
    let t = &toks[i];
    match t {
        Token::OpenBrace => {
            let (r1, j) = parse_object(toks, i + 1);
            match r1 {
                Ok(kvs) => (Ok(Value::Object(kvs)), j),
                Err(e) => (Err(e), j),
            }
        },
        Token::OpenBracket => parse_list(toks, i + 1),
        Token::StrLit(s) => {
            if is_valid_str_value(s.as_str()) {
                (Ok(Value::Str(s.clone())), i + 1)
            } else {
                (Err(Error::LineBreakInLiteral), i)
            }
        },
        Token::True => (Ok(Value::Bool(true)), i + 1),
        Token::False => (Ok(Value::Bool(false)), i + 1),
        Token::Null => (Ok(Value::Null), i + 1),
        Token::Number(s) => (Ok(Value::Number(s.clone())), i + 1),
        _ => (Err(Error::SyntaxError(t.clone(), MARK_VALUE)), i),
    }
}

/// Parses an object body, just after the opening brace.
fn parse_object(toks: &Vec<Token>, i: usize) -> (r: (Result<Vec<KV>, Error>, usize))
    requires
        i <= toks@.len(),
    ensures
        ({
            let (sr, sj) = spec_parse_object(toks.deep_view(), i as int);
            match r.0 {
                Ok(kvs) => sr matches Ok(m) && seq_kv_view(kvs@) == m && r.1 == sj && i < r.1
                    <= toks@.len(),
                Err(e) => sr matches Err(me) && e@ == me,
            }
        }),
    decreases toks@.len() - i, 1int,
{
    if i >= toks.len() {
        return (Err(Error::MissingClosingBracket), i);
    }
    let t = &toks[i];
    match t {
        Token::CloseBrace => {
            let object: Vec<KV> = Vec::new();
            (Ok(object), i + 1)
        },
        Token::Comma => (Err(Error::TrailingComma), i),
        Token::StrLit(k) => {
            let key = k.clone();
            let (r1, j1) = parse_kv(key, toks, i + 1);
            match r1 {
                Err(e) => (Err(e), j1),
                Ok(kv) => {
                    let mut object: Vec<KV> = Vec::new();
                    proof {
                        lemma_seq_kv_view_push(object@, kv);
                    }
                    object.push(kv);
                    let mut pos: usize = j1;
                    loop
                        invariant
                            i < pos <= toks@.len(),
                            spec_parse_object(toks.deep_view(), i as int) == spec_parse_obj_tail(
                                toks.deep_view(),
                                pos as int,
                                seq_kv_view(object@),
                            ),
                        decreases toks@.len() - pos,
                    {
                        if pos >= toks.len() {
                            return (Err(Error::MissingClosingBracket), pos);
                        }
                        let t2 = &toks[pos];
                        match t2 {
                            Token::CloseBrace => {
                                return (Ok(object), pos + 1);
                            },
                            Token::Comma => {
                                if pos + 1 >= toks.len() {
                                    return (Err(Error::TrailingComma), pos + 1);
                                }
                                let t3 = &toks[pos + 1];
                                match t3 {
                                    Token::StrLit(k2) => {
                                        let key2 = k2.clone();
                                        let (r2, j2) = parse_kv(key2, toks, pos + 2);
                                        match r2 {
                                            Err(e) => {
                                                return (Err(e), j2);
                                            },
                                            Ok(kv2) => {
                                                proof {
                                                    lemma_seq_kv_view_push(object@, kv2);
                                                }
                                                object.push(kv2);
                                                pos = j2;
                                            },
                                        }
                                    },
                                    _ => {
                                        return (Err(Error::TrailingComma), pos + 1);
                                    },
                                }
                            },
                            _ => {
                                return (
                                    Err(Error::SyntaxError(t2.clone(), MARK_OBJECT_SEP)),
                                    pos,
                                );
                            },
                        }
                    }
                },
            }
        },
        _ => (Err(Error::SyntaxError(t.clone(), MARK_OBJECT_START)), i),
    }
}

/// Parses the remainder of a pair, just after its key.
fn parse_kv(key: String, toks: &Vec<Token>, i: usize) -> (r: (Result<KV, Error>, usize))
    requires
        i <= toks@.len(),
    ensures
        ({
            let (sr, sj) = spec_parse_kv(toks.deep_view(), i as int, key@);
            match r.0 {
                Ok(kv) => sr matches Ok(m) && (kv.0@, kv.1@) == m && r.1 == sj && i + 1 < r.1
                    <= toks@.len(),
                Err(e) => sr matches Err(me) && e@ == me,
            }
        }),
    decreases toks@.len() - i, 1int,
{
    if i >= toks.len() {
        return (Err(Error::MissingValue), i);
    }
    let t = &toks[i];
    match t {
        Token::Colon => {
            let (r1, j) = parse_value(toks, i + 1);
            match r1 {
                Ok(v) => (Ok(KV(key, v)), j),
                Err(e) => (Err(e), j),
            }
        },
        _ => (Err(Error::SyntaxError(t.clone(), MARK_PAIR_COLON)), i),
    }
}

/// Parses an array body, just after the opening bracket.
fn parse_list(toks: &Vec<Token>, i: usize) -> (r: (Result<Value, Error>, usize))
    requires
        i <= toks@.len(),
    ensures
        ({
            let (sr, sj) = spec_parse_list(toks.deep_view(), i as int);
            match r.0 {
                Ok(v) => sr matches Ok(m) && v@ == m && r.1 == sj && i < r.1 <= toks@.len(),
                Err(e) => sr matches Err(me) && e@ == me,
            }
        }),
    decreases toks@.len() - i, 1int,
{
    if i < toks.len() {
        let t0 = &toks[i];
        if let Token::CloseBracket = t0 {
            let values: Vec<Value> = Vec::new();
            return (Ok(Value::Array(values)), i + 1);
        }
    }
    let (r1, j1) = parse_value(toks, i);
    match r1 {
        Err(e) => (Err(e), j1),
        Ok(v) => {
            let mut values: Vec<Value> = Vec::new();
            proof {
                lemma_seq_value_view_push(values@, v);
            }
            values.push(v);
            let mut pos: usize = j1;
            loop
                invariant
                    i < pos <= toks@.len(),
                    spec_parse_list(toks.deep_view(), i as int) == spec_parse_list_tail(
                        toks.deep_view(),
                        pos as int,
                        seq_value_view(values@),
                    ),
                decreases toks@.len() - pos,
            {
                if pos >= toks.len() {
                    return (Err(Error::MissingClosingBracket), pos);
                }
                let t2 = &toks[pos];
                match t2 {
                    Token::CloseBracket => {
                        return (Ok(Value::Array(values)), pos + 1);
                    },
                    Token::Comma => {
                        let (r2, j2) = parse_value(toks, pos + 1);
                        match r2 {
                            Err(e) => {
                                return (Err(e), j2);
                            },
                            Ok(v2) => {
                                proof {
                                    lemma_seq_value_view_push(values@, v2);
                                }
                                values.push(v2);
                                pos = j2;
                            },
                        }
                    },
                    _ => {
                        return (Err(Error::SyntaxError(t2.clone(), MARK_LIST_SEP)), pos);
                    },
                }
            }
        },
    }
}

/// Parses a whole token sequence into its value tree.
///
/// The first token must open an object or an array; any other first token,
/// or an empty sequence, fails with `MustBeginWithBracket`. A token left
/// over after the top-level value fails with `ExtraValue`.
pub fn parse(tokens: Vec<Token>) -> (r: Result<Value, Error>)
    ensures
        match spec_parse(tokens.deep_view()) {
            Ok(m) => r matches Ok(v) && v@ == m,
            Err(e) => r matches Err(er) && er@ == e,
        },
        (tokens.deep_view().len() == 0 || !((tokens.deep_view()[0] matches TokenModel::OpenBrace)
            || (tokens.deep_view()[0] matches TokenModel::OpenBracket))) ==> (r matches Err(er)
            && er@ == ErrorModel::MustBeginWithBracket),
{
    if tokens.len() == 0 {
        return Err(Error::MustBeginWithBracket);
    }
    let t = &tokens[0];
    match t {
        Token::OpenBrace => {
            let (r1, j) = parse_object(&tokens, 1);
            match r1 {
                Ok(kvs) => if j == tokens.len() {
                    Ok(Value::Object(kvs))
                } else {
                    Err(Error::ExtraValue)
                },
                Err(e) => Err(e),
            }
        },
        Token::OpenBracket => {
            let (r1, j) = parse_list(&tokens, 1);
            match r1 {
                Ok(v) => if j == tokens.len() {
                    Ok(v)
                } else {
                    Err(Error::ExtraValue)
                },
                Err(e) => Err(e),
            }
        },
        _ => Err(Error::MustBeginWithBracket),
    }
}

/// Tokenizes and parses a whole text: the composition of the two stages.
pub fn analyse(raw: &str) -> (r: Result<Value, Error>)
    ensures
        match spec_analyse(raw@) {
            Ok(m) => r matches Ok(v) && v@ == m,
            Err(e) => r matches Err(er) && er@ == e,
        },
{
    match tokenize(raw) {
        Ok(tokens) => parse(tokens),
        Err(e) => Err(e),
    }
}

/// Law: whenever tokenizing a text succeeds but its first token opens
/// neither an object nor an array (or there is no token at all), the whole
/// analysis fails with `MustBeginWithBracket`.
pub proof fn lemma_scalar_text_rejected(text: Seq<char>)
    requires
        spec_tokenize(text) is Ok,
        ({
            let ts = spec_tokenize(text)->Ok_0;
            ts.len() == 0 || !((ts[0] matches TokenModel::OpenBrace) || (
            ts[0] matches TokenModel::OpenBracket))
        }),
    ensures
        spec_analyse(text) == Err::<ValueModel, ErrorModel>(ErrorModel::MustBeginWithBracket),
{
    lemma_must_begin_with_bracket(spec_tokenize(text)->Ok_0);
}

/// Whether a string value is free of raw line breaks and tabs.
pub fn is_valid_str_value(l: &str) -> (b: bool)
    ensures
        b == spec_valid_str_value(l@),
{
    let n = l.unicode_len();
    let mut k: usize = 0;
    while k < n
        invariant
            0 <= k <= n,
            n == l@.len(),
            forall|m: int| 0 <= m < k ==> l@[m] != '\n' && l@[m] != '\t',
        decreases n - k,
    {
        let c = l.get_char(k);
        if c == '\n' || c == '\t' {
            return false;
        }
        k = k + 1;
    }
    true
}

} // verus!
