//! Counting the lines and words of a text: the computing core of a word
//! count tool. The caller reads the input into memory; these functions
//! only count.

use vstd::prelude::*;

verus! {

/// How many line-feed bytes a byte run holds.
pub open spec fn spec_newlines(s: Seq<u8>) -> int
    decreases s.len(),
{
    if s.len() == 0 {
        0
    } else {
        spec_newlines(s.drop_last()) + if s.last() == 10 {
            1int
        } else {
            0int
        }
    }
}

/// How many lines a byte run holds: one per line feed, and one more for a
/// trailing fragment not ended by one.
pub open spec fn spec_count_lines(s: Seq<u8>) -> int {
    spec_newlines(s) + if s.len() > 0 && s.last() != 10 {
        1int
    } else {
        0int
    }
}

/// The Unicode whitespace characters, as the standard library documents
/// them for `char::is_whitespace`.
pub open spec fn is_unicode_space(c: char) -> bool {
    c == '\u{0009}' || c == '\u{000A}' || c == '\u{000B}' || c == '\u{000C}' || c == '\u{000D}'
        || c == '\u{0020}' || c == '\u{0085}' || c == '\u{00A0}' || c == '\u{1680}' || ('\u{2000}'
        <= c && c <= '\u{200A}') || c == '\u{2028}' || c == '\u{2029}' || c == '\u{202F}' || c
        == '\u{205F}' || c == '\u{3000}'
}

/// How many words start in `s`, given whether the character just before
/// `s` was whitespace (or the start of the text).
pub open spec fn spec_words_from(s: Seq<char>, prev_space: bool) -> int
    decreases s.len(),
{
    if s.len() == 0 {
        0
    } else {
        (if prev_space && !is_unicode_space(s[0]) {
            1int
        } else {
            0int
        }) + spec_words_from(s.drop_first(), is_unicode_space(s[0]))
    }
}

/// How many maximal runs of non-whitespace characters a text holds.
pub open spec fn spec_count_words(s: Seq<char>) -> int {
    spec_words_from(s, true)
}

proof fn lemma_newlines_bound(s: Seq<u8>)
    ensures
        0 <= spec_newlines(s) <= s.len(),
    decreases s.len(),
{
    if s.len() > 0 {
        lemma_newlines_bound(s.drop_last());
    }
}

/// Whether `c` is Unicode whitespace.
pub fn unicode_space(c: char) -> (b: bool)
    ensures
        b == is_unicode_space(c),
{
    c == '\u{0009}' || c == '\u{000A}' || c == '\u{000B}' || c == '\u{000C}' || c == '\u{000D}'
        || c == '\u{0020}' || c == '\u{0085}' || c == '\u{00A0}' || c == '\u{1680}' || ('\u{2000}'
        <= c && c <= '\u{200A}') || c == '\u{2028}' || c == '\u{2029}' || c == '\u{202F}' || c
        == '\u{3000}' || c == '\u{205F}'
}

/// Counts the lines of a byte run.
#[verifier::loop_isolation(false)]
pub fn count_lines(bytes: &Vec<u8>) -> (r: usize)
    ensures
        r == spec_count_lines(bytes@),
{
    let mut nl: usize = 0;
    let mut i: usize = 0;
    proof {
        assert(bytes@.subrange(0, 0) =~= Seq::<u8>::empty());
    }
    while i < bytes.len()
        invariant
            i <= bytes@.len(),
            nl <= i,
            nl == spec_newlines(bytes@.subrange(0, i as int)),
        decreases bytes@.len() - i,
    {
        proof {
            assert(bytes@.subrange(0, i + 1).drop_last() =~= bytes@.subrange(0, i as int));
            assert(bytes@.subrange(0, i + 1).last() == bytes@[i as int]);
        }
        if bytes[i] == 10 {
            nl = nl + 1;
        }
        i = i + 1;
    }
    proof {
        assert(bytes@.subrange(0, bytes@.len() as int) =~= bytes@);
    }
    if bytes.len() > 0 && bytes[bytes.len() - 1] != 10 {
        proof {
            lemma_newlines_bound(bytes@.drop_last());
            assert(spec_newlines(bytes@) == spec_newlines(bytes@.drop_last()));
        }
        nl + 1
    } else {
        nl
    }
}

/// Counts the words of a text: the maximal runs of non-whitespace
/// characters.
#[verifier::loop_isolation(false)]
pub fn count_words(chars: &Vec<char>) -> (r: usize)
    ensures
        r == spec_count_words(chars@),
{
    let mut count: usize = 0;
    let mut prev_space = true;
    let mut k: usize = 0;
    proof {
        assert(chars@.skip(0) =~= chars@);
    }
    while k < chars.len()
        invariant
            k <= chars@.len(),
            count <= k,
            spec_count_words(chars@) == count + spec_words_from(
                chars@.skip(k as int),
                prev_space,
            ),
        decreases chars@.len() - k,
    {
        proof {
            assert(chars@.skip(k as int)[0] == chars@[k as int]);
            assert(chars@.skip(k as int).drop_first() =~= chars@.skip(k + 1));
        }
        let c = chars[k];
        let space = unicode_space(c);
        if prev_space && !space {
            count = count + 1;
        }
        prev_space = space;
        k = k + 1;
    }
    proof {
        assert(chars@.skip(chars@.len() as int).len() == 0);
    }
    count
}

} // verus!
