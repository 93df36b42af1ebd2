//! Per-line decisions of an HTTP request reader: whether a start line
//! speaks HTTP/1.1, and the value of a content-length header. The reading
//! loop itself performs socket I/O and lives outside the library; it hands
//! each line in as characters.
//!
//! Header names are matched ignoring ASCII case only: a header name is
//! ASCII by the protocol's grammar.

use vstd::prelude::*;
use crate::textcount::{is_unicode_space, unicode_space};

verus! {

/// Whether two characters are equal ignoring ASCII case.
pub open spec fn ascii_eqi(a: char, b: char) -> bool {
    a == b || ('A' <= a && a <= 'Z' && a as u32 + 32 == b as u32) || ('A' <= b && b <= 'Z' && b
        as u32 + 32 == a as u32)
}

/// Whether `pat` stands in `line` at position `i`, ignoring ASCII case.
pub open spec fn matches_at(line: Seq<char>, i: int, pat: Seq<char>) -> bool {
    &&& 0 <= i
    &&& i + pat.len() <= line.len()
    &&& forall|k: int| 0 <= k < pat.len() ==> ascii_eqi(line[i + k], #[trigger] pat[k])
}

/// The protocol marker every accepted start line must mention.
pub open spec fn http11_pat() -> Seq<char> {
    seq!['h', 't', 't', 'p', '/', '1', '.', '1']
}

/// The header name that carries a body length, colon included.
pub open spec fn content_length_pat() -> Seq<char> {
    seq!['c', 'o', 'n', 't', 'e', 'n', 't', '-', 'l', 'e', 'n', 'g', 't', 'h', ':']
}

/// Whether `line` mentions `http/1.1` anywhere, ignoring ASCII case.
pub open spec fn spec_mentions_http11(line: Seq<char>) -> bool {
    exists|i: int| matches_at(line, i, http11_pat())
}

/// How many leading whitespace characters `s` has.
pub open spec fn leading_ws(s: Seq<char>) -> nat
    decreases s.len(),
{
    if s.len() == 0 || !is_unicode_space(s[0]) {
        0nat
    } else {
        (1 + leading_ws(s.drop_first())) as nat
    }
}

/// How many trailing whitespace characters `s` has.
pub open spec fn trailing_ws(s: Seq<char>) -> nat
    decreases s.len(),
{
    if s.len() == 0 || !is_unicode_space(s.last()) {
        0nat
    } else {
        (1 + trailing_ws(s.drop_last())) as nat
    }
}

/// `s` without leading and trailing whitespace.
pub open spec fn spec_trim(s: Seq<char>) -> Seq<char> {
    let t = s.skip(leading_ws(s) as int);
    t.take(t.len() - trailing_ws(t))
}

/// Decimal digits.
pub open spec fn is_ascii_digit(c: char) -> bool {
    '0' <= c && c <= '9'
}

/// The value of a digit run, most significant first.
pub open spec fn digits_val(s: Seq<char>) -> int
    decreases s.len(),
{
    if s.len() == 0 {
        0
    } else {
        digits_val(s.drop_last()) * 10 + (s.last() as u32 - '0' as u32)
    }
}

/// Whether `s` is one or more decimal digits.
pub open spec fn all_digits(s: Seq<char>) -> bool {
    s.len() >= 1 && forall|k: int| 0 <= k < s.len() ==> is_ascii_digit(#[trigger] s[k])
}

/// The number an unsigned decimal literal denotes: an optional plus sign,
/// then digits, rejecting values beyond the machine word.
pub open spec fn spec_parse_usize(s: Seq<char>) -> Option<int> {
    let body = if s.len() > 0 && s[0] == '+' {
        s.drop_first()
    } else {
        s
    };
    if all_digits(body) && digits_val(body) <= usize::MAX as int {
        Some(digits_val(body))
    } else {
        None
    }
}

/// The content length a header line announces: the line, trimmed, must
/// open with `content-length:` ignoring ASCII case, and the rest, trimmed,
/// must be an unsigned decimal number.
pub open spec fn spec_content_length(line: Seq<char>) -> Option<int> {
    let t = spec_trim(line);
    if matches_at(t, 0, content_length_pat()) {
        spec_parse_usize(spec_trim(t.skip(content_length_pat().len() as int)))
    } else {
        None
    }
}

/// Whether two characters are equal ignoring ASCII case.
fn char_eqi(a: char, b: char) -> (r: bool)
    ensures
        r == ascii_eqi(a, b),
{
    if a == b {
        return true;
    }
    let au = a as u32;
    let bu = b as u32;
    ('A' as u32 <= au && au <= 'Z' as u32 && au + 32 == bu) || ('A' as u32 <= bu && bu <= 'Z'
        as u32 && bu + 32 == au)
}

/// Whether `pat` stands in `line` at position `i`, ignoring ASCII case.
#[verifier::loop_isolation(false)]
fn matches_here(line: &Vec<char>, i: usize, pat: &Vec<char>) -> (r: bool)
    requires
        i + pat@.len() <= line@.len(),
    ensures
        r == matches_at(line@, i as int, pat@),
{
    let n = line.len();
    let mut k: usize = 0;
    while k < pat.len()
        invariant
            n == line@.len(),
            k <= pat@.len(),
            i + pat@.len() <= line@.len(),
            forall|m: int| 0 <= m < k ==> ascii_eqi(line@[i + m], #[trigger] pat@[m]),
        decreases pat@.len() - k,
    {
        if !char_eqi(line[i + k], pat[k]) {
            return false;
        }
        k = k + 1;
    }
    true
}

/// Whether the line mentions `http/1.1`, ignoring ASCII case: the check an
/// accepted start line must pass.
#[verifier::loop_isolation(false)]
pub fn mentions_http11(line: &Vec<char>) -> (r: bool)
    ensures
        r == spec_mentions_http11(line@),
{
    let pat: Vec<char> = vec!['h', 't', 't', 'p', '/', '1', '.', '1'];
    proof {
        assert(pat@ =~= http11_pat());
    }
    if line.len() < 8 {
        return false;
    }
    let mut i: usize = 0;
    while line.len() - i >= 8
        invariant
            pat@ == http11_pat(),
            i <= line@.len(),
            forall|m: int| 0 <= m < i ==> !matches_at(line@, m, http11_pat()),
        decreases line@.len() - i,
    {
        if matches_here(line, i, &pat) {
            return true;
        }
        i = i + 1;
    }
    proof {
        assert forall|m: int| !matches_at(line@, m, http11_pat()) by {
            if 0 <= m && m + 8 <= line@.len() {
                assert(m < i);
            }
        }
    }
    false
}

/// The bounds of `line` with surrounding whitespace dropped.
#[verifier::loop_isolation(false)]
fn trim_bounds(line: &Vec<char>, from: usize, to: usize) -> (r: (usize, usize))
    requires
        from <= to <= line@.len(),
    ensures
        from <= r.0 <= r.1 <= to,
        line@.subrange(r.0 as int, r.1 as int) == spec_trim(
            line@.subrange(from as int, to as int),
        ),
{
    let ghost s = line@.subrange(from as int, to as int);
    let mut a = from;
    proof {
        assert(s.skip(0) =~= s);
    }
    while a < to && unicode_space(line[a])
        invariant
            from <= a <= to,
            leading_ws(s) == (a - from) + leading_ws(s.skip(a - from)),
        decreases to - a,
    {
        proof {
            assert(s.skip(a - from)[0] == line@[a as int]);
            assert(s.skip(a - from).drop_first() =~= s.skip(a - from + 1));
        }
        a = a + 1;
    }
    proof {
        if a < to {
            assert(s.skip(a - from)[0] == line@[a as int]);
        }
        assert(leading_ws(s) == a - from);
    }
    let ghost t = s.skip(a - from);
    let mut b = to;
    proof {
        assert(t.take(to - a) =~= t);
    }
    while b > a && unicode_space(line[b - 1])
        invariant
            a <= b <= to,
            t == s.skip(a - from),
            trailing_ws(t) == (to - b) + trailing_ws(t.take(b - a)),
        decreases b - a,
    {
        proof {
            assert(t.take(b - a).last() == line@[b - 1]);
            assert(t.take(b - a).drop_last() =~= t.take(b - a - 1));
        }
        b = b - 1;
    }
    proof {
        if b > a {
            assert(t.take(b - a).last() == line@[b - 1]);
        } else {
            assert(t.take(b - a).len() == 0);
        }
        assert(trailing_ws(t.take(b - a)) == 0);
        assert(trailing_ws(t) == to - b);
        assert(spec_trim(s) == t.take(t.len() - trailing_ws(t)));
        assert(line@.subrange(a as int, b as int) =~= t.take(b - a));
        assert(t.take(t.len() - (to - b)) =~= t.take(b - a));
    }
    (a, b)
}

/// Parses an unsigned decimal literal: an optional plus sign, then digits.
#[verifier::loop_isolation(false)]
fn parse_usize(line: &Vec<char>, from: usize, to: usize) -> (r: Option<usize>)
    requires
        from <= to <= line@.len(),
    ensures
        match r {
            Some(v) => spec_parse_usize(line@.subrange(from as int, to as int)) == Some(v as int),
            None => spec_parse_usize(line@.subrange(from as int, to as int)) is None,
        },
{
    let ghost s = line@.subrange(from as int, to as int);
    let mut i = from;
    if i < to && line[i] == '+' {
        i = i + 1;
        proof {
            assert(s.drop_first() =~= line@.subrange(i as int, to as int));
        }
    } else {
        proof {
            assert(s =~= line@.subrange(i as int, to as int));
        }
    }
    let ghost body = line@.subrange(i as int, to as int);
    if i >= to {
        return None;
    }
    let mut val: usize = 0;
    let mut k = i;
    proof {
        assert(body.take(0) =~= Seq::<char>::empty());
    }
    while k < to
        invariant
            i <= k <= to,
            body == line@.subrange(i as int, to as int),
            i < to,
            val as int == digits_val(body.take(k - i)),
            forall|m: int| 0 <= m < k - i ==> is_ascii_digit(#[trigger] body[m]),
        decreases to - k,
    {
        let c = line[k];
        if !('0' <= c && c <= '9') {
            proof {
                assert(!is_ascii_digit(body[k - i]));
            }
            return None;
        }
        let d = (c as u32 - '0' as u32) as usize;
        proof {
            assert(body.take(k - i + 1).drop_last() =~= body.take(k - i));
            assert(body.take(k - i + 1).last() == body[k - i]);
        }
        let next = match val.checked_mul(10) {
            Some(v) => v,
            None => {
                proof {
                    if all_digits(body) {
                        lemma_digits_val_grows(body, k - i + 1);
                    }
                }
                return None;
            },
        };
        let next = match next.checked_add(d) {
            Some(v) => v,
            None => {
                proof {
                    if all_digits(body) {
                        lemma_digits_val_grows(body, k - i + 1);
                    }
                }
                return None;
            },
        };
        val = next;
        k = k + 1;
    }
    proof {
        assert(body.take(to - i) =~= body);
    }
    Some(val)
}

/// A longer digit run denotes at least as large a number.
proof fn lemma_digits_val_grows(s: Seq<char>, k: int)
    requires
        0 <= k <= s.len(),
        forall|m: int| 0 <= m < s.len() ==> is_ascii_digit(#[trigger] s[m]),
    ensures
        digits_val(s) >= digits_val(s.take(k)),
        digits_val(s) >= 0,
    decreases s.len(),
{
    if s.len() > 0 {
        lemma_digits_val_grows(s.drop_last(), if k <= s.len() - 1 {
            k
        } else {
            s.len() - 1
        });
        assert(s.drop_last() =~= s.take(s.len() - 1));
        if k <= s.len() - 1 {
            assert(s.drop_last().take(k) =~= s.take(k));
        } else {
            assert(s.take(k) =~= s);
        }
    }
}

/// The content length a header line announces, if any.
pub fn content_length_of(line: &Vec<char>) -> (r: Option<usize>)
    ensures
        match r {
            Some(v) => spec_content_length(line@) == Some(v as int),
            None => spec_content_length(line@) is None,
        },
{
    let (a, b) = trim_bounds(line, 0, line.len());
    proof {
        assert(line@.subrange(0, line@.len() as int) =~= line@);
    }
    let pat: Vec<char> = vec![
        'c',
        'o',
        'n',
        't',
        'e',
        'n',
        't',
        '-',
        'l',
        'e',
        'n',
        'g',
        't',
        'h',
        ':',
    ];
    proof {
        assert(pat@ =~= content_length_pat());
    }
    if b - a < 15 {
        proof {
            assert(!matches_at(spec_trim(line@), 0, content_length_pat()));
        }
        return None;
    }
    let ghost t = spec_trim(line@);
    if !matches_here_sub(line, a, b, &pat) {
        return None;
    }
    let (va, vb) = trim_bounds(line, a + 15, b);
    proof {
        assert(t.skip(15) =~= line@.subrange(a + 15, b as int));
        assert(line@.subrange(va as int, vb as int) =~= spec_trim(t.skip(15)));
    }
    parse_usize(line, va, vb)
}

/// Whether `pat` opens the window `[a, b)` of `line`, ignoring ASCII case.
#[verifier::loop_isolation(false)]
fn matches_here_sub(line: &Vec<char>, a: usize, b: usize, pat: &Vec<char>) -> (r: bool)
    requires
        a <= b <= line@.len(),
        pat@.len() <= b - a,
    ensures
        r == matches_at(line@.subrange(a as int, b as int), 0, pat@),
{
    let mut k: usize = 0;
    while k < pat.len()
        invariant
            k <= pat@.len(),
            a <= b <= line@.len(),
            pat@.len() <= b - a,
            forall|m: int|
                0 <= m < k ==> ascii_eqi(
                    line@.subrange(a as int, b as int)[m],
                    #[trigger] pat@[m],
                ),
        decreases pat@.len() - k,
    {
        proof {
            assert(line@.subrange(a as int, b as int)[k as int] == line@[a + k]);
        }
        if !char_eqi(line[a + k], pat[k]) {
            return false;
        }
        k = k + 1;
    }
    true
}

} // verus!
