//! The tokenizer: a single forward scan that turns a character sequence
//! into the sequence of its lexical tokens, or fails at the first character
//! that fits no token.
//!
//! The scan has no backtracking and no partial-success mode: either the
//! whole input is consumed or an error names the point of failure.

use vstd::prelude::*;
use crate::json::token::{Token, TokenModel};
use crate::json::error::{Error, ErrorModel};
use crate::text::string_from_chars;
use vstd::string::StrSliceExecFns;

verus! {

/// Characters skipped between tokens: space, tab, line feed, carriage return.
pub open spec fn is_json_space(c: char) -> bool {
    c == ' ' || c == '\u{000A}' || c == '\u{000D}' || c == '\u{0009}'
}

/// Decimal digits.
pub open spec fn is_digit(c: char) -> bool {
    '0' <= c && c <= '9'
}

/// The characters a numeric literal is greedily scanned from.
pub open spec fn is_number_char(c: char) -> bool {
    is_digit(c) || c == 'e' || c == 'E' || c == '.' || c == '+' || c == '-'
}

/// How many characters remain at position `i`, clamped to zero; the
/// termination measure of the scanning functions.
pub open spec fn spec_remaining(text: Seq<char>, i: int) -> int {
    if text.len() - i >= 0 {
        text.len() - i
    } else {
        0
    }
}

/// Scans a string literal body starting at `i` (just after the opening
/// quote). Returns the decoded content and the number of characters
/// consumed, the closing quote included; `None` when the input ends before
/// an unescaped closing quote. A backslash keeps itself and the following
/// character literally.
pub open spec fn spec_scan_string(text: Seq<char>, i: int) -> Option<(Seq<char>, nat)>
    decreases spec_remaining(text, i),
{
    if i < 0 || i >= text.len() {
        None
    } else if text[i] == '"' {
        Some((Seq::empty(), 1nat))
    } else if text[i] == '\\' {
        if i + 1 >= text.len() {
            None
        } else {
            match spec_scan_string(text, i + 2) {
                Some((content, n)) => Some((seq!['\\', text[i + 1]] + content, (2 + n) as nat)),
                None => None,
            }
        }
    } else {
        match spec_scan_string(text, i + 1) {
            Some((content, n)) => Some((seq![text[i]] + content, (1 + n) as nat)),
            None => None,
        }
    }
}

/// Matches the remaining characters of a keyword one-for-one at position
/// `i`. `None` means the whole word matched; otherwise the error is
/// `ParsingError` when the input ended mid-keyword, or `UnrecognizedToken`
/// naming the first mismatched character and its position.
pub open spec fn spec_read_end_word(text: Seq<char>, i: int, word: Seq<char>) -> Option<ErrorModel>
    decreases word.len(),
{
    if word.len() == 0 {
        None
    } else if i < 0 || i >= text.len() {
        Some(ErrorModel::ParsingError)
    } else if text[i] != word[0] {
        Some(ErrorModel::UnrecognizedToken(text[i], i))
    } else {
        spec_read_end_word(text, i + 1, word.drop_first())
    }
}

/// The length of the run of number characters starting at `i`.
pub open spec fn spec_number_run(text: Seq<char>, i: int) -> nat
    decreases spec_remaining(text, i),
{
    if i < 0 || i >= text.len() || !is_number_char(text[i]) {
        0nat
    } else {
        (1 + spec_number_run(text, i + 1)) as nat
    }
}

/// The states of the scanner for floating-point literals. The names follow
/// the shape read so far; `Dead` is the sink for anything off the grammar.
pub enum NumState {
    /// Nothing read yet.
    Start,
    /// A leading sign.
    AfterSign,
    /// Inside the integer digits.
    IntPart,
    /// A dot with no digits before it.
    DotOnly,
    /// Integer digits followed by a dot, no fraction digit yet.
    IntDot,
    /// Inside the fraction digits.
    FracPart,
    /// Just after `e` or `E`.
    ExpStart,
    /// A sign just after `e` or `E`.
    ExpSign,
    /// Inside the exponent digits.
    ExpDigits,
    /// Off the grammar.
    Dead,
}

/// One transition of the floating-point literal scanner.
pub open spec fn spec_num_step(s: NumState, c: char) -> NumState {
    match s {
        NumState::Start => if c == '+' || c == '-' {
            NumState::AfterSign
        } else if is_digit(c) {
            NumState::IntPart
        } else if c == '.' {
            NumState::DotOnly
        } else {
            NumState::Dead
        },
        NumState::AfterSign => if is_digit(c) {
            NumState::IntPart
        } else if c == '.' {
            NumState::DotOnly
        } else {
            NumState::Dead
        },
        NumState::IntPart => if is_digit(c) {
            NumState::IntPart
        } else if c == '.' {
            NumState::IntDot
        } else if c == 'e' || c == 'E' {
            NumState::ExpStart
        } else {
            NumState::Dead
        },
        NumState::DotOnly => if is_digit(c) {
            NumState::FracPart
        } else {
            NumState::Dead
        },
        NumState::IntDot => if is_digit(c) {
            NumState::FracPart
        } else if c == 'e' || c == 'E' {
            NumState::ExpStart
        } else {
            NumState::Dead
        },
        NumState::FracPart => if is_digit(c) {
            NumState::FracPart
        } else if c == 'e' || c == 'E' {
            NumState::ExpStart
        } else {
            NumState::Dead
        },
        NumState::ExpStart => if c == '+' || c == '-' {
            NumState::ExpSign
        } else if is_digit(c) {
            NumState::ExpDigits
        } else {
            NumState::Dead
        },
        NumState::ExpSign => if is_digit(c) {
            NumState::ExpDigits
        } else {
            NumState::Dead
        },
        NumState::ExpDigits => if is_digit(c) {
            NumState::ExpDigits
        } else {
            NumState::Dead
        },
        NumState::Dead => NumState::Dead,
    }
}

/// The scanner state after reading the whole literal.
pub open spec fn spec_num_state(lit: Seq<char>) -> NumState
    decreases lit.len(),
{
    if lit.len() == 0 {
        NumState::Start
    } else {
        spec_num_step(spec_num_state(lit.drop_last()), lit.last())
    }
}

/// Whether the scanner state stands at the end of a complete literal.
pub open spec fn spec_num_accepting(s: NumState) -> bool {
    match s {
        NumState::IntPart => true,
        NumState::IntDot => true,
        NumState::FracPart => true,
        NumState::ExpDigits => true,
        _ => false,
    }
}

/// Whether `lit` is a valid floating-point literal: an optional sign, then
/// digits with an optional dot among or after them, then an optional
/// exponent with its own optional sign. This is the documented acceptance
/// grammar of `f64` parsing in Rust, restricted to the characters a number
/// scan can produce (the word forms of infinities and NaN need letters
/// outside that set), so a consumer's float parse of an accepted literal
/// succeeds.
pub open spec fn spec_valid_number(lit: Seq<char>) -> bool {
    spec_num_accepting(spec_num_state(lit))
}

/// Prefixes already-produced tokens onto the outcome of scanning the rest.
pub open spec fn prepend_tokens(
    ts: Seq<TokenModel>,
    r: Result<Seq<TokenModel>, ErrorModel>,
) -> Result<Seq<TokenModel>, ErrorModel> {
    match r {
        Ok(rest) => Ok(ts + rest),
        Err(e) => Err(e),
    }
}

/// The token sequence of `text` from position `i` on, or the first error.
pub open spec fn spec_tokenize_from(text: Seq<char>, i: int) -> Result<
    Seq<TokenModel>,
    ErrorModel,
>
    decreases spec_remaining(text, i),
{
    if i < 0 {
        Err(ErrorModel::ParsingError)
    } else if i >= text.len() {
        Ok(Seq::empty())
    } else {
        let c = text[i];
        if c == '{' {
            prepend_tokens(seq![TokenModel::OpenBrace], spec_tokenize_from(text, i + 1))
        } else if c == '}' {
            prepend_tokens(seq![TokenModel::CloseBrace], spec_tokenize_from(text, i + 1))
        } else if c == '[' {
            prepend_tokens(seq![TokenModel::OpenBracket], spec_tokenize_from(text, i + 1))
        } else if c == ']' {
            prepend_tokens(seq![TokenModel::CloseBracket], spec_tokenize_from(text, i + 1))
        } else if c == ',' {
            prepend_tokens(seq![TokenModel::Comma], spec_tokenize_from(text, i + 1))
        } else if c == ':' {
            prepend_tokens(seq![TokenModel::Colon], spec_tokenize_from(text, i + 1))
        } else if c == '"' {
            match spec_scan_string(text, i + 1) {
                Some((content, n)) => prepend_tokens(
                    seq![TokenModel::StrLit(content)],
                    spec_tokenize_from(text, i + 1 + n),
                ),
                None => Err(ErrorModel::MismatchQuote),
            }
        } else if c == 't' {
            match spec_read_end_word(text, i + 1, seq!['r', 'u', 'e']) {
                Some(e) => Err(e),
                None => prepend_tokens(seq![TokenModel::True], spec_tokenize_from(text, i + 4)),
            }
        } else if c == 'f' {
            match spec_read_end_word(text, i + 1, seq!['a', 'l', 's', 'e']) {
                Some(e) => Err(e),
                None => prepend_tokens(seq![TokenModel::False], spec_tokenize_from(text, i + 5)),
            }
        } else if c == 'n' {
            match spec_read_end_word(text, i + 1, seq!['u', 'l', 'l']) {
                Some(e) => Err(e),
                None => prepend_tokens(seq![TokenModel::Null], spec_tokenize_from(text, i + 4)),
            }
        } else if is_json_space(c) {
            spec_tokenize_from(text, i + 1)
        } else if c == '-' || is_digit(c) {
            let lit = text.subrange(i, i + 1 + spec_number_run(text, i + 1));
            if spec_valid_number(lit) {
                prepend_tokens(
                    seq![TokenModel::Number(lit)],
                    spec_tokenize_from(text, i + 1 + spec_number_run(text, i + 1)),
                )
            } else {
                Err(ErrorModel::InvalidNumber)
            }
        } else {
            Err(ErrorModel::UnrecognizedToken(c, i))
        }
    }
}

/// The token sequence of a whole text, or the first scan error.
pub open spec fn spec_tokenize(text: Seq<char>) -> Result<Seq<TokenModel>, ErrorModel> {
    spec_tokenize_from(text, 0)
}

/// Whether `c` is drawn from the number-literal character set.
fn number_char(c: char) -> (b: bool)
    ensures
        b == is_number_char(c),
{
    ('0' <= c && c <= '9') || c == 'e' || c == 'E' || c == '.' || c == '+' || c == '-'
}

/// Scans a string literal body, returning its decoded content and the
/// position just past the closing quote, or `None` when the input ends
/// before the literal is closed.
fn scan_string_body(chars: &Vec<char>, i: usize) -> (r: Option<(Vec<char>, usize)>)
    requires
        i <= chars@.len(),
    ensures
        match spec_scan_string(chars@, i as int) {
            Some(cn) => r matches Some(p) && p.0@ == cn.0 && p.1 == i + cn.1 && p.1
                <= chars@.len(),
            None => r is None,
        },
{
    let mut content: Vec<char> = Vec::new();
    let mut j: usize = i;
    loop
        invariant
            i <= j <= chars@.len(),
            spec_scan_string(chars@, i as int) == (match spec_scan_string(chars@, j as int) {
                Some(cn) => Some(((content@ + cn.0), ((j - i) + cn.1) as nat)),
                None => None::<(Seq<char>, nat)>,
            }),
        decreases chars@.len() - j,
    {
        if j >= chars.len() {
            return None;
        }
        let c = chars[j];
        if c == '"' {
            proof {
                assert(content@ + Seq::<char>::empty() =~= content@);
            }
            return Some((content, j + 1));
        } else if c == '\\' {
            if j + 1 >= chars.len() {
                return None;
            }
            proof {
                match spec_scan_string(chars@, j + 2) {
                    Some(cn) => {
                        assert(content@ + (seq!['\\', chars@[j + 1]] + cn.0) =~= (content@
                            + seq!['\\', chars@[j + 1]]) + cn.0);
                    },
                    None => {},
                }
            }
            content.push('\\');
            content.push(chars[j + 1]);
            j = j + 2;
        } else {
            proof {
                match spec_scan_string(chars@, j + 1) {
                    Some(cn) => {
                        assert(content@ + (seq![chars@[j as int]] + cn.0) =~= (content@
                            + seq![chars@[j as int]]) + cn.0);
                    },
                    None => {},
                }
            }
            content.push(c);
            j = j + 1;
        }
    }
}

/// Matches the remaining characters of a keyword one-for-one, as the scan
/// of `true`, `false` and `null` proceeds after their first character.
pub fn read_end_word(end_of_word: &str, chars: &Vec<char>, i: usize) -> (r: Result<(), Error>)
    requires
        i <= chars@.len(),
    ensures
        match spec_read_end_word(chars@, i as int, end_of_word@) {
            None => r is Ok && i + end_of_word@.len() <= chars@.len(),
            Some(e) => r matches Err(er) && er@ == e,
        },
{
    let n = end_of_word.unicode_len();
    let mut k: usize = 0;
    proof {
        assert(end_of_word@.skip(0) =~= end_of_word@);
    }
    loop
        invariant
            0 <= k <= n,
            n == end_of_word@.len(),
            i <= chars@.len(),
            i + k <= chars@.len(),
            spec_read_end_word(chars@, i as int, end_of_word@) == spec_read_end_word(
                chars@,
                i + k,
                end_of_word@.skip(k as int),
            ),
        decreases n - k,
    {
        if k == n {
            proof {
                assert(end_of_word@.skip(k as int).len() == 0);
            }
            return Ok(());
        }
        proof {
            assert(end_of_word@.skip(k as int)[0] == end_of_word@[k as int]);
            assert(end_of_word@.skip(k as int).drop_first() =~= end_of_word@.skip(k + 1));
        }
        if chars.len() - i <= k {
            return Err(Error::ParsingError);
        }
        let expected = end_of_word.get_char(k);
        let got = chars[i + k];
        if got != expected {
            return Err(Error::UnrecognizedToken(got, i + k));
        }
        k = k + 1;
    }
}

/// The end of the run of number characters starting at `i`.
fn scan_number_end(chars: &Vec<char>, i: usize) -> (j: usize)
    requires
        i <= chars@.len(),
    ensures
        i <= j <= chars@.len(),
        j == i + spec_number_run(chars@, i as int),
{
    let mut j: usize = i;
    loop
        invariant
            i <= j <= chars@.len(),
            spec_number_run(chars@, i as int) == (j - i) + spec_number_run(chars@, j as int),
        decreases chars@.len() - j,
    {
        if j >= chars.len() {
            return j;
        }
        if !number_char(chars[j]) {
            return j;
        }
        j = j + 1;
    }
}

/// One transition of the floating-point literal scanner.
fn num_step(s: NumState, c: char) -> (r: NumState)
    ensures
        r == spec_num_step(s, c),
{
    let digit = '0' <= c && c <= '9';
    match s {
        NumState::Start => if c == '+' || c == '-' {
            NumState::AfterSign
        } else if digit {
            NumState::IntPart
        } else if c == '.' {
            NumState::DotOnly
        } else {
            NumState::Dead
        },
        NumState::AfterSign => if digit {
            NumState::IntPart
        } else if c == '.' {
            NumState::DotOnly
        } else {
            NumState::Dead
        },
        NumState::IntPart => if digit {
            NumState::IntPart
        } else if c == '.' {
            NumState::IntDot
        } else if c == 'e' || c == 'E' {
            NumState::ExpStart
        } else {
            NumState::Dead
        },
        NumState::DotOnly => if digit {
            NumState::FracPart
        } else {
            NumState::Dead
        },
        NumState::IntDot => if digit {
            NumState::FracPart
        } else if c == 'e' || c == 'E' {
            NumState::ExpStart
        } else {
            NumState::Dead
        },
        NumState::FracPart => if digit {
            NumState::FracPart
        } else if c == 'e' || c == 'E' {
            NumState::ExpStart
        } else {
            NumState::Dead
        },
        NumState::ExpStart => if c == '+' || c == '-' {
            NumState::ExpSign
        } else if digit {
            NumState::ExpDigits
        } else {
            NumState::Dead
        },
        NumState::ExpSign => if digit {
            NumState::ExpDigits
        } else {
            NumState::Dead
        },
        NumState::ExpDigits => if digit {
            NumState::ExpDigits
        } else {
            NumState::Dead
        },
        NumState::Dead => NumState::Dead,
    }
}

/// Whether `lit` is a valid floating-point literal.
fn check_number(lit: &Vec<char>) -> (b: bool)
    ensures
        b == spec_valid_number(lit@),
{
    let mut state = NumState::Start;
    let mut k: usize = 0;
    while k < lit.len()
        invariant
            0 <= k <= lit@.len(),
            state == spec_num_state(lit@.subrange(0, k as int)),
        decreases lit@.len() - k,
    {
        proof {
            assert(lit@.subrange(0, k + 1).drop_last() =~= lit@.subrange(0, k as int));
            assert(lit@.subrange(0, k + 1).last() == lit@[k as int]);
        }
        state = num_step(state, lit[k]);
        k = k + 1;
    }
    proof {
        assert(lit@.subrange(0, lit@.len() as int) =~= lit@);
    }
    match state {
        NumState::IntPart => true,
        NumState::IntDot => true,
        NumState::FracPart => true,
        NumState::ExpDigits => true,
        _ => false,
    }
}

/// Shifting one produced token from the pending side to the accumulator.
proof fn lemma_prepend_shift(dv: Seq<TokenModel>, m: TokenModel, r: Result<
    Seq<TokenModel>,
    ErrorModel,
>)
    ensures
        prepend_tokens(dv, prepend_tokens(seq![m], r)) == prepend_tokens(dv.push(m), r),
{
    match r {
        Ok(rest) => {
            assert(dv + (seq![m] + rest) =~= dv.push(m) + rest);
        },
        Err(_) => {},
    }
}

/// Scans a character sequence into its lexical tokens.
///
/// The whole input is consumed or the scan fails: structural characters map
/// to structural tokens, `"` opens a string literal, `t`, `f` and `n` open
/// the three keywords, `-` and digits open a greedily scanned numeric
/// literal that must pass the floating-point literal grammar, whitespace is
/// skipped, and any other character is rejected at its position.
pub fn tokenize(input: &str) -> (r: Result<Vec<Token>, Error>)
    ensures
        match spec_tokenize(input@) {
            Ok(ts) => r matches Ok(v) && v.deep_view() == ts,
            Err(e) => r matches Err(er) && er@ == e,
        },
{
    let chars = crate::text::chars_of(input);
    let mut tokens: Vec<Token> = Vec::new();
    let mut i: usize = 0;
    proof {
        assert(Seq::<TokenModel>::empty() + spec_tokenize_from(chars@, 0)->Ok_0
            =~= spec_tokenize_from(chars@, 0)->Ok_0);
    }
    while i < chars.len()
        invariant
            chars@ == input@,
            i <= chars@.len(),
            spec_tokenize(input@) == prepend_tokens(
                tokens.deep_view(),
                spec_tokenize_from(chars@, i as int),
            ),
        decreases chars@.len() - i,
    {
        let ghost pre = tokens.deep_view();
        let c = chars[i];
        if c == '{' {
            tokens.push(Token::OpenBrace);
            proof {
                assert(tokens.deep_view() =~= pre.push(TokenModel::OpenBrace));
                lemma_prepend_shift(
                    pre,
                    TokenModel::OpenBrace,
                    spec_tokenize_from(chars@, i + 1),
                );
            }
            i = i + 1;
        } else if c == '}' {
            tokens.push(Token::CloseBrace);
            proof {
                assert(tokens.deep_view() =~= pre.push(TokenModel::CloseBrace));
                lemma_prepend_shift(
                    pre,
                    TokenModel::CloseBrace,
                    spec_tokenize_from(chars@, i + 1),
                );
            }
            i = i + 1;
        } else if c == '[' {
            tokens.push(Token::OpenBracket);
            proof {
                assert(tokens.deep_view() =~= pre.push(TokenModel::OpenBracket));
                lemma_prepend_shift(
                    pre,
                    TokenModel::OpenBracket,
                    spec_tokenize_from(chars@, i + 1),
                );
            }
            i = i + 1;
        } else if c == ']' {
            tokens.push(Token::CloseBracket);
            proof {
                assert(tokens.deep_view() =~= pre.push(TokenModel::CloseBracket));
                lemma_prepend_shift(
                    pre,
                    TokenModel::CloseBracket,
                    spec_tokenize_from(chars@, i + 1),
                );
            }
            i = i + 1;
        } else if c == ',' {
            tokens.push(Token::Comma);
            proof {
                assert(tokens.deep_view() =~= pre.push(TokenModel::Comma));
                lemma_prepend_shift(pre, TokenModel::Comma, spec_tokenize_from(chars@, i + 1));
            }
            i = i + 1;
        } else if c == ':' {
            tokens.push(Token::Colon);
            proof {
                assert(tokens.deep_view() =~= pre.push(TokenModel::Colon));
                lemma_prepend_shift(pre, TokenModel::Colon, spec_tokenize_from(chars@, i + 1));
            }
            i = i + 1;
        } else if c == '"' {
            match scan_string_body(&chars, i + 1) {
                Some(p) => {
                    let (content, next) = p;
                    let lit = string_from_chars(&content);
                    tokens.push(Token::StrLit(lit));
                    proof {
                        let cn = spec_scan_string(chars@, i + 1)->Some_0;
                        assert(tokens.deep_view() =~= pre.push(TokenModel::StrLit(cn.0)));
                        lemma_prepend_shift(
                            pre,
                            TokenModel::StrLit(cn.0),
                            spec_tokenize_from(chars@, i + 1 + cn.1),
                        );
                    }
                    i = next;
                },
                None => {
                    return Err(Error::MismatchQuote);
                },
            }
        } else if c == 't' {
            proof {
                reveal_strlit("rue");
                assert("rue"@ =~= seq!['r', 'u', 'e']);
            }
            match read_end_word("rue", &chars, i + 1) {
                Ok(_) => {
                    tokens.push(Token::True);
                    proof {
                        assert(tokens.deep_view() =~= pre.push(TokenModel::True));
                        lemma_prepend_shift(
                            pre,
                            TokenModel::True,
                            spec_tokenize_from(chars@, i + 4),
                        );
                    }
                    i = i + 4;
                },
                Err(e) => {
                    return Err(e);
                },
            }
        } else if c == 'f' {
            proof {
                reveal_strlit("alse");
                assert("alse"@ =~= seq!['a', 'l', 's', 'e']);
            }
            match read_end_word("alse", &chars, i + 1) {
                Ok(_) => {
                    tokens.push(Token::False);
                    proof {
                        assert(tokens.deep_view() =~= pre.push(TokenModel::False));
                        lemma_prepend_shift(
                            pre,
                            TokenModel::False,
                            spec_tokenize_from(chars@, i + 5),
                        );
                    }
                    i = i + 5;
                },
                Err(e) => {
                    return Err(e);
                },
            }
        } else if c == 'n' {
            proof {
                reveal_strlit("ull");
                assert("ull"@ =~= seq!['u', 'l', 'l']);
            }
            match read_end_word("ull", &chars, i + 1) {
                Ok(_) => {
                    tokens.push(Token::Null);
                    proof {
                        assert(tokens.deep_view() =~= pre.push(TokenModel::Null));
                        lemma_prepend_shift(
                            pre,
                            TokenModel::Null,
                            spec_tokenize_from(chars@, i + 4),
                        );
                    }
                    i = i + 4;
                },
                Err(e) => {
                    return Err(e);
                },
            }
        } else if c == ' ' || c == '\u{000A}' || c == '\u{000D}' || c == '\u{0009}' {
            i = i + 1;
        } else if c == '-' || ('0' <= c && c <= '9') {
            let end = scan_number_end(&chars, i + 1);
            let lit_slice = vstd::slice::slice_subrange(chars.as_slice(), i, end);
            let lit_chars = vstd::slice::slice_to_vec(lit_slice);
            if check_number(&lit_chars) {
                let lit = string_from_chars(&lit_chars);
                tokens.push(Token::Number(lit));
                proof {
                    let mlit = chars@.subrange(i as int, i + 1 + spec_number_run(chars@, i + 1));
                    assert(lit_chars@ == mlit);
                    assert(tokens.deep_view() =~= pre.push(TokenModel::Number(mlit)));
                    lemma_prepend_shift(
                        pre,
                        TokenModel::Number(mlit),
                        spec_tokenize_from(chars@, i + 1 + spec_number_run(chars@, i + 1)),
                    );
                }
                i = end;
            } else {
                return Err(Error::InvalidNumber);
            }
        } else {
            return Err(Error::UnrecognizedToken(c, i));
        }
    }
    proof {
        assert(tokens.deep_view() + Seq::<TokenModel>::empty() =~= tokens.deep_view());
    }
    Ok(tokens)
}

} // verus!
