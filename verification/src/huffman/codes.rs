//! The code maps read off a Huffman tree: each leaf's character is coded
//! by its path from the root, `0` for a left turn, `1` for a right turn.

use vstd::prelude::*;
use vstd::string::StrSliceExecFns;
use crate::huffman::tree::{HuffmanNode, HuffmanTree};
use crate::text::string_from_chars;

verus! {

/// The (character, code) pairs of the subtree `n` whose path from the root
/// spells `prefix`, in leaf order.
pub open spec fn spec_codes(n: HuffmanNode, prefix: Seq<char>) -> Seq<(char, Seq<char>)>
    decreases n,
{
    match n {
        HuffmanNode::Leaf { element, .. } => seq![(element, prefix)],
        HuffmanNode::Internal { left, right, .. } => spec_codes(*left, prefix.push('0'))
            + spec_codes(*right, prefix.push('1')),
    }
}

/// The same pairs with code and character swapped.
pub open spec fn spec_swap(s: Seq<(char, Seq<char>)>) -> Seq<(Seq<char>, char)> {
    Seq::new(s.len(), |i: int| (s[i].1, s[i].0))
}

/// The abstract entries of a character-to-code list.
pub open spec fn char_code_entries(s: Seq<(char, String)>) -> Seq<(char, Seq<char>)> {
    Seq::new(s.len(), |i: int| (s[i].0, s[i].1@))
}

/// The abstract entries of a code-to-character list.
pub open spec fn code_char_entries(s: Seq<(String, char)>) -> Seq<(Seq<char>, char)> {
    Seq::new(s.len(), |i: int| (s[i].0@, s[i].1))
}

/// The first code stored for `c`, if any.
pub open spec fn spec_code_of(s: Seq<(char, Seq<char>)>, c: char) -> Option<Seq<char>>
    decreases s.len(),
{
    if s.len() == 0 {
        None
    } else if s[0].0 == c {
        Some(s[0].1)
    } else {
        spec_code_of(s.drop_first(), c)
    }
}

/// The first character stored for `code`, if any.
pub open spec fn spec_char_of(s: Seq<(Seq<char>, char)>, code: Seq<char>) -> Option<char>
    decreases s.len(),
{
    if s.len() == 0 {
        None
    } else if s[0].0 == code {
        Some(s[0].1)
    } else {
        spec_char_of(s.drop_first(), code)
    }
}

/// A map from characters to their code words, in leaf order.
pub struct CharCodeMap {
    entries: Vec<(char, String)>,
}

impl View for CharCodeMap {
    type V = Seq<(char, Seq<char>)>;

    closed spec fn view(&self) -> Seq<(char, Seq<char>)> {
        char_code_entries(self.entries@)
    }
}

impl CharCodeMap {
    /// How many characters have a code.
    pub fn len(&self) -> (r: usize)
        ensures
            r == self@.len(),
    {
        self.entries.len()
    }

    /// The code word of `c`, if any.
    pub fn get(&self, c: char) -> (r: Option<String>)
        ensures
            match r {
                Some(code) => spec_code_of(self@, c) == Some(code@),
                None => spec_code_of(self@, c) is None,
            },
    {
        let mut i: usize = 0;
        proof {
            assert(self@.skip(0) =~= self@);
        }
        while i < self.entries.len()
            invariant
                i <= self@.len(),
                self@.len() == self.entries@.len(),
                spec_code_of(self@, c) == spec_code_of(self@.skip(i as int), c),
            decreases self@.len() - i,
        {
            proof {
                assert(self@.skip(i as int)[0] == self@[i as int]);
                assert(self@.skip(i as int).drop_first() =~= self@.skip(i + 1));
            }
            if self.entries[i].0 == c {
                let code = self.entries[i].1.clone();
                return Some(code);
            }
            i = i + 1;
        }
        proof {
            assert(self@.skip(i as int).len() == 0);
        }
        None
    }
}

/// The length of the longest code word of a code-to-character map.
pub open spec fn spec_max_code_len(s: Seq<(Seq<char>, char)>) -> int
    decreases s.len(),
{
    if s.len() == 0 {
        0
    } else if s[0].0.len() > spec_max_code_len(s.drop_first()) {
        s[0].0.len() as int
    } else {
        spec_max_code_len(s.drop_first())
    }
}

/// A map from code words to their characters, in leaf order.
pub struct CodeCharMap {
    entries: Vec<(String, char)>,
}

impl View for CodeCharMap {
    type V = Seq<(Seq<char>, char)>;

    closed spec fn view(&self) -> Seq<(Seq<char>, char)> {
        code_char_entries(self.entries@)
    }
}

impl CodeCharMap {
    /// How many code words have a character.
    pub fn len(&self) -> (r: usize)
        ensures
            r == self@.len(),
    {
        self.entries.len()
    }

    /// The character of the code word `code`, if any.
    pub fn get(&self, code: &String) -> (r: Option<char>)
        ensures
            r == spec_char_of(self@, code@),
    {
        let mut i: usize = 0;
        proof {
            assert(self@.skip(0) =~= self@);
        }
        while i < self.entries.len()
            invariant
                i <= self@.len(),
                self@.len() == self.entries@.len(),
                spec_char_of(self@, code@) == spec_char_of(self@.skip(i as int), code@),
            decreases self@.len() - i,
        {
            proof {
                assert(self@.skip(i as int)[0] == self@[i as int]);
                assert(self@.skip(i as int).drop_first() =~= self@.skip(i + 1));
            }
            if self.entries[i].0.eq(code) {
                return Some(self.entries[i].1);
            }
            i = i + 1;
        }
        proof {
            assert(self@.skip(i as int).len() == 0);
        }
        None
    }

    /// The length of the longest code word.
    pub fn max_code_len(&self) -> (r: usize)
        ensures
            r == spec_max_code_len(self@),
    {
        let mut best: usize = 0;
        let mut k: usize = 0;
        proof {
            assert(self@.skip(0) =~= self@);
        }
        while k < self.entries.len()
            invariant
                k <= self@.len(),
                self@.len() == self.entries@.len(),
                spec_max_code_len(self@) == (if spec_max_code_len(self@.skip(k as int)) > best {
                    spec_max_code_len(self@.skip(k as int))
                } else {
                    best as int
                }),
            decreases self@.len() - k,
        {
            proof {
                assert(self@.skip(k as int)[0] == self@[k as int]);
                assert(self@.skip(k as int).drop_first() =~= self@.skip(k + 1));
            }
            let len = self.entries[k].0.as_str().unicode_len();
            if len > best {
                best = len;
            }
            k = k + 1;
        }
        proof {
            assert(self@.skip(k as int).len() == 0);
        }
        best
    }
}

/// Walks the subtree `node`, appending one `(character, code)` entry per
/// leaf; `prefix` spells the path to `node` and is restored on return.
fn rec_gen_char_code_map(
    node: &HuffmanNode,
    prefix: &mut Vec<char>,
    code_table: &mut Vec<(char, String)>,
)
    ensures
        final(prefix)@ == old(prefix)@,
        char_code_entries(final(code_table)@) == char_code_entries(old(code_table)@) + spec_codes(
            *node,
            old(prefix)@,
        ),
    decreases node,
{
    match node {
        HuffmanNode::Leaf { element, .. } => {
            let code = string_from_chars(prefix);
            code_table.push((*element, code));
            proof {
                assert(char_code_entries(code_table@) =~= char_code_entries(
                    old(code_table)@,
                ).push((*element, prefix@)));
                assert(char_code_entries(old(code_table)@).push((*element, prefix@))
                    =~= char_code_entries(old(code_table)@) + spec_codes(*node, old(prefix)@));
            }
        },
        HuffmanNode::Internal { left, right, .. } => {
            let ghost p0 = prefix@;
            prefix.push('0');
            rec_gen_char_code_map(left, prefix, code_table);
            prefix.pop();
            proof {
                assert(prefix@ =~= p0);
            }
            prefix.push('1');
            rec_gen_char_code_map(right, prefix, code_table);
            prefix.pop();
            proof {
                assert(prefix@ =~= p0);
                assert((char_code_entries(old(code_table)@) + spec_codes(**left, p0.push('0')))
                    + spec_codes(**right, p0.push('1')) =~= char_code_entries(old(code_table)@)
                    + (spec_codes(**left, p0.push('0')) + spec_codes(**right, p0.push('1'))));
            }
        },
    }
}

/// As `rec_gen_char_code_map`, with code and character swapped.
fn rec_gen_code_char_map(
    node: &HuffmanNode,
    prefix: &mut Vec<char>,
    code_table: &mut Vec<(String, char)>,
)
    ensures
        final(prefix)@ == old(prefix)@,
        code_char_entries(final(code_table)@) == code_char_entries(old(code_table)@) + spec_swap(
            spec_codes(*node, old(prefix)@),
        ),
    decreases node,
{
    match node {
        HuffmanNode::Leaf { element, .. } => {
            let code = string_from_chars(prefix);
            code_table.push((code, *element));
            proof {
                assert(code_char_entries(code_table@) =~= code_char_entries(
                    old(code_table)@,
                ).push((prefix@, *element)));
                assert(code_char_entries(old(code_table)@).push((prefix@, *element))
                    =~= code_char_entries(old(code_table)@) + spec_swap(
                    spec_codes(*node, old(prefix)@),
                ));
            }
        },
        HuffmanNode::Internal { left, right, .. } => {
            let ghost p0 = prefix@;
            prefix.push('0');
            rec_gen_code_char_map(left, prefix, code_table);
            prefix.pop();
            proof {
                assert(prefix@ =~= p0);
            }
            prefix.push('1');
            rec_gen_code_char_map(right, prefix, code_table);
            prefix.pop();
            proof {
                assert(prefix@ =~= p0);
                assert(spec_swap(spec_codes(**left, p0.push('0'))) + spec_swap(
                    spec_codes(**right, p0.push('1')),
                ) =~= spec_swap(spec_codes(*node, p0)));
                assert((code_char_entries(old(code_table)@) + spec_swap(
                    spec_codes(**left, p0.push('0')),
                )) + spec_swap(spec_codes(**right, p0.push('1'))) =~= code_char_entries(
                    old(code_table)@,
                ) + (spec_swap(spec_codes(**left, p0.push('0'))) + spec_swap(
                    spec_codes(**right, p0.push('1')),
                )));
            }
        },
    }
}

impl HuffmanTree {
    /// The map from each leaf character to its code word.
    pub fn gen_char_code_map(tree: HuffmanTree) -> (r: CharCodeMap)
        ensures
            r@ == spec_codes(tree.root, Seq::empty()),
    {
        let mut prefix: Vec<char> = Vec::new();
        let mut entries: Vec<(char, String)> = Vec::new();
        proof {
            assert(char_code_entries(entries@) =~= Seq::<(char, Seq<char>)>::empty());
        }
        rec_gen_char_code_map(&tree.root, &mut prefix, &mut entries);
        proof {
            assert(Seq::<(char, Seq<char>)>::empty() + spec_codes(tree.root, Seq::empty())
                =~= spec_codes(tree.root, Seq::empty()));
        }
        CharCodeMap { entries }
    }

    /// The map from each code word to its leaf character.
    pub fn gen_code_char_map(tree: HuffmanTree) -> (r: CodeCharMap)
        ensures
            r@ == spec_swap(spec_codes(tree.root, Seq::empty())),
    {
        let mut prefix: Vec<char> = Vec::new();
        let mut entries: Vec<(String, char)> = Vec::new();
        proof {
            assert(code_char_entries(entries@) =~= Seq::<(Seq<char>, char)>::empty());
        }
        rec_gen_code_char_map(&tree.root, &mut prefix, &mut entries);
        proof {
            assert(Seq::<(Seq<char>, char)>::empty() + spec_swap(
                spec_codes(tree.root, Seq::empty()),
            ) =~= spec_swap(spec_codes(tree.root, Seq::empty())));
        }
        CodeCharMap { entries }
    }
}

/// Every code of the subtree `n` under `prefix` begins with `prefix`.
proof fn lemma_codes_prefixed(n: HuffmanNode, prefix: Seq<char>)
    ensures
        forall|i: int|
            0 <= i < spec_codes(n, prefix).len() ==> (#[trigger] spec_codes(n, prefix)[i]).1.len()
                >= prefix.len() && spec_codes(n, prefix)[i].1.take(prefix.len() as int) == prefix,
    decreases n,
{
    match n {
        HuffmanNode::Leaf { .. } => {
            assert(spec_codes(n, prefix)[0].1.take(prefix.len() as int) =~= prefix);
        },
        HuffmanNode::Internal { left, right, .. } => {
            lemma_codes_prefixed(*left, prefix.push('0'));
            lemma_codes_prefixed(*right, prefix.push('1'));
            let l = spec_codes(*left, prefix.push('0'));
            let r = spec_codes(*right, prefix.push('1'));
            assert forall|i: int|
                0 <= i < spec_codes(n, prefix).len() implies (#[trigger] spec_codes(
                n,
                prefix,
            )[i]).1.len() >= prefix.len() && spec_codes(n, prefix)[i].1.take(prefix.len() as int)
                == prefix by {
                let e = spec_codes(n, prefix)[i];
                if i < l.len() {
                    assert(e == l[i]);
                    assert(e.1.take(prefix.len() as int + 1) == prefix.push('0'));
                    assert(e.1.take(prefix.len() as int) =~= prefix);
                } else {
                    assert(e == r[i - l.len()]);
                    assert(e.1.take(prefix.len() as int + 1) == prefix.push('1'));
                    assert(e.1.take(prefix.len() as int) =~= prefix);
                }
            }
        },
    }
}

/// The codes of a subtree are pairwise distinct: left codes continue with
/// a zero where right codes continue with a one.
proof fn lemma_codes_distinct(n: HuffmanNode, prefix: Seq<char>)
    ensures
        forall|i: int, j: int|
            0 <= i < j < spec_codes(n, prefix).len() ==> (#[trigger] spec_codes(n, prefix)[i]).1
                != (#[trigger] spec_codes(n, prefix)[j]).1,
    decreases n,
{
    match n {
        HuffmanNode::Leaf { .. } => {},
        HuffmanNode::Internal { left, right, .. } => {
            lemma_codes_distinct(*left, prefix.push('0'));
            lemma_codes_distinct(*right, prefix.push('1'));
            lemma_codes_prefixed(*left, prefix.push('0'));
            lemma_codes_prefixed(*right, prefix.push('1'));
            let l = spec_codes(*left, prefix.push('0'));
            let r = spec_codes(*right, prefix.push('1'));
            assert forall|i: int, j: int|
                0 <= i < j < spec_codes(n, prefix).len() implies (#[trigger] spec_codes(
                n,
                prefix,
            )[i]).1 != (#[trigger] spec_codes(n, prefix)[j]).1 by {
                let a = spec_codes(n, prefix)[i];
                let b = spec_codes(n, prefix)[j];
                if i < l.len() && j >= l.len() {
                    assert(a == l[i]);
                    assert(b == r[j - l.len()]);
                    assert(a.1.take(prefix.len() as int + 1) == prefix.push('0'));
                    assert(b.1.take(prefix.len() as int + 1) == prefix.push('1'));
                    if a.1 == b.1 {
                        assert(prefix.push('0')[prefix.len() as int] == prefix.push(
                            '1',
                        )[prefix.len() as int]);
                        assert(false);
                    }
                } else if i < l.len() {
                    assert(a == l[i] && b == l[j]);
                } else {
                    assert(a == r[i - l.len()] && b == r[j - l.len()]);
                }
            }
        },
    }
}

/// A found code belongs to some entry carrying the looked-up character.
proof fn lemma_code_of_member(s: Seq<(char, Seq<char>)>, c: char)
    requires
        spec_code_of(s, c) is Some,
    ensures
        exists|k: int|
            0 <= k < s.len() && (#[trigger] s[k]).0 == c && s[k].1 == spec_code_of(s, c)->Some_0,
    decreases s.len(),
{
    if s[0].0 == c {
        assert(s[0].0 == c && s[0].1 == spec_code_of(s, c)->Some_0);
    } else {
        lemma_code_of_member(s.drop_first(), c);
        let k0 = choose|k: int|
            0 <= k < s.drop_first().len() && (#[trigger] s.drop_first()[k]).0 == c
                && s.drop_first()[k].1 == spec_code_of(s.drop_first(), c)->Some_0;
        assert(s[k0 + 1].0 == c && s[k0 + 1].1 == spec_code_of(s, c)->Some_0);
    }
}

/// Looking a character's code up in the swapped map finds the character
/// back, as long as the codes are pairwise distinct.
proof fn lemma_swap_lookup(s: Seq<(char, Seq<char>)>, c: char)
    requires
        spec_code_of(s, c) is Some,
        forall|i: int, j: int|
            0 <= i < j < s.len() ==> (#[trigger] s[i]).1 != (#[trigger] s[j]).1,
    ensures
        spec_char_of(spec_swap(s), spec_code_of(s, c)->Some_0) == Some(c),
    decreases s.len(),
{
    let code = spec_code_of(s, c)->Some_0;
    assert(spec_swap(s)[0] == (s[0].1, s[0].0));
    if s[0].0 == c {
    } else {
        lemma_code_of_member(s.drop_first(), c);
        let k0 = choose|k: int|
            0 <= k < s.drop_first().len() && (#[trigger] s.drop_first()[k]).0 == c
                && s.drop_first()[k].1 == spec_code_of(s.drop_first(), c)->Some_0;
        assert(s[k0 + 1].1 == code);
        assert(s[0].1 != s[k0 + 1].1);
        lemma_swap_lookup(s.drop_first(), c);
        assert(spec_swap(s).drop_first() =~= spec_swap(s.drop_first()));
    }
}

/// The code list names the tree's leaf characters, in leaf order.
proof fn lemma_codes_chars(n: HuffmanNode, prefix: Seq<char>)
    ensures
        spec_codes(n, prefix).len() == n.leaf_entries().len(),
        forall|i: int|
            0 <= i < spec_codes(n, prefix).len() ==> (#[trigger] spec_codes(n, prefix)[i]).0
                == n.leaf_entries()[i].0,
    decreases n,
{
    match n {
        HuffmanNode::Leaf { .. } => {},
        HuffmanNode::Internal { left, right, .. } => {
            lemma_codes_chars(*left, prefix.push('0'));
            lemma_codes_chars(*right, prefix.push('1'));
            let l = spec_codes(*left, prefix.push('0'));
            assert forall|i: int|
                0 <= i < spec_codes(n, prefix).len() implies (#[trigger] spec_codes(
                n,
                prefix,
            )[i]).0 == n.leaf_entries()[i].0 by {
                if i < l.len() {
                    assert(spec_codes(n, prefix)[i] == l[i]);
                    assert(n.leaf_entries()[i] == left.leaf_entries()[i]);
                } else {
                    assert(spec_codes(n, prefix)[i] == spec_codes(*right, prefix.push('1'))[i
                        - l.len()]);
                    assert(n.leaf_entries()[i] == right.leaf_entries()[i - l.len()]);
                }
            }
        },
    }
}

/// A character some entry carries is always found.
proof fn lemma_code_of_found(s: Seq<(char, Seq<char>)>, c: char)
    requires
        exists|i: int| 0 <= i < s.len() && (#[trigger] s[i]).0 == c,
    ensures
        spec_code_of(s, c) is Some,
    decreases s.len(),
{
    if s[0].0 != c {
        let i0 = choose|i: int| 0 <= i < s.len() && (#[trigger] s[i]).0 == c;
        assert(s.drop_first()[i0 - 1].0 == c);
        lemma_code_of_found(s.drop_first(), c);
    }
}

/// Law: every character at a leaf of the tree has a code word in the
/// tree's character-to-code map.
pub proof fn lemma_every_leaf_has_code(n: HuffmanNode, c: char)
    requires
        exists|i: int| 0 <= i < n.leaf_entries().len() && (#[trigger] n.leaf_entries()[i]).0 == c,
    ensures
        spec_code_of(spec_codes(n, Seq::empty()), c) is Some,
{
    lemma_codes_chars(n, Seq::empty());
    let i0 = choose|i: int|
        0 <= i < n.leaf_entries().len() && (#[trigger] n.leaf_entries()[i]).0 == c;
    assert(spec_codes(n, Seq::empty())[i0].0 == c);
    lemma_code_of_found(spec_codes(n, Seq::empty()), c);
}

/// Law: the two code maps of one tree are mutually inverse. Whenever the
/// character-to-code map of a tree assigns `c` a code word, the
/// code-to-character map of the same tree takes that code word back to
/// `c`.
pub proof fn lemma_code_maps_inverse(n: HuffmanNode, c: char)
    requires
        spec_code_of(spec_codes(n, Seq::empty()), c) is Some,
    ensures
        spec_char_of(
            spec_swap(spec_codes(n, Seq::empty())),
            spec_code_of(spec_codes(n, Seq::empty()), c)->Some_0,
        ) == Some(c),
{
    lemma_codes_distinct(n, Seq::empty());
    lemma_swap_lookup(spec_codes(n, Seq::empty()), c);
}

} // verus!
