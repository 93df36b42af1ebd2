//! The byte layout of the frequency-table header that precedes a
//! compressed payload: a four-byte little-endian length, then one record
//! per character — a one-byte length, the character's UTF-8 bytes, and its
//! four-byte little-endian frequency.

use vstd::prelude::*;
use vstd::bytes::{u32_to_le_bytes, u32_from_le_bytes, spec_u32_to_le_bytes, spec_u32_from_le_bytes};
use vstd::utf8::{
    encode_scalar, encode_utf8, valid_utf8, decode_utf8, encode_utf8_valid_utf8,
    encode_utf8_decode_utf8,
};
use vstd::bytes::lemma_auto_spec_u32_to_from_le_bytes;
use crate::seqsplit::{lemma_chunk_split, lemma_chunk_one};
use vstd::slice::{slice_subrange, slice_to_vec};
use crate::huffman::freq::{FreqTable, spec_set};

verus! {

/// Relies on `char::encode_utf8`: the UTF-8 bytes of one character.
#[verifier::external_body]
fn utf8_of_char(c: char) -> (r: Vec<u8>)
    ensures
        r@ == encode_scalar(c as u32),
{
    let mut buf = [0u8; 4];
    c.encode_utf8(&mut buf).as_bytes().to_vec()
}

/// Relies on `str::from_utf8`: it succeeds exactly on valid UTF-8, and the
/// characters of the resulting string are the decoded scalars of the
/// bytes.
#[verifier::external_body]
fn chars_of_utf8(bytes: &[u8]) -> (r: Option<Vec<char>>)
    ensures
        r is Some <==> valid_utf8(bytes@),
        r matches Some(cs) ==> cs@ == decode_utf8(bytes@),
{
    match core::str::from_utf8(bytes) {
        Ok(s) => Some(s.chars().collect()),
        Err(_) => None,
    }
}

/// The bytes of one header record.
pub open spec fn spec_entry_bytes(c: char, f: u32) -> Seq<u8> {
    seq![encode_scalar(c as u32).len() as u8] + encode_scalar(c as u32) + spec_u32_to_le_bytes(f)
}

/// The bytes of the header body: one record per table entry, in order.
pub open spec fn spec_header_body(entries: Seq<(char, u32)>) -> Seq<u8>
    decreases entries.len(),
{
    if entries.len() == 0 {
        Seq::empty()
    } else {
        spec_entry_bytes(entries[0].0, entries[0].1) + spec_header_body(entries.drop_first())
    }
}

/// The whole header: the body's length as four little-endian bytes, then
/// the body.
pub open spec fn spec_header(entries: Seq<(char, u32)>) -> Seq<u8> {
    spec_u32_to_le_bytes(spec_header_body(entries).len() as u32) + spec_header_body(entries)
}

/// How many bytes remain at position `i`, clamped to zero.
pub open spec fn spec_bytes_remaining(bytes: Seq<u8>, i: int) -> int {
    if bytes.len() - i >= 0 {
        bytes.len() - i
    } else {
        0
    }
}

/// Parses header-body records from position `i` into the accumulated
/// table; a later record for the same character wins. `None` when a record
/// is truncated, its character bytes are not valid UTF-8, or they decode
/// to no character at all.
pub open spec fn spec_parse_entries(bytes: Seq<u8>, i: int, acc: Seq<(char, u32)>) -> Option<
    Seq<(char, u32)>,
>
    decreases spec_bytes_remaining(bytes, i),
{
    if i < 0 {
        None
    } else if i >= bytes.len() {
        Some(acc)
    } else {
        let size = bytes[i] as int;
        if i + 1 + size > bytes.len() {
            None
        } else {
            let cb = bytes.subrange(i + 1, i + 1 + size);
            if !valid_utf8(cb) || decode_utf8(cb).len() == 0 {
                None
            } else {
                let c = decode_utf8(cb)[0];
                if i + 1 + size + 4 > bytes.len() {
                    None
                } else {
                    let f = spec_u32_from_le_bytes(bytes.subrange(i + 1 + size, i + 5 + size));
                    spec_parse_entries(bytes, i + 5 + size, spec_set(acc, c, f))
                }
            }
        }
    }
}

/// Lays out the whole header of a frequency table.
#[verifier::loop_isolation(false)]
pub fn header_bytes(freq: &FreqTable) -> (r: Vec<u8>)
    requires
        spec_header_body(freq@).len() <= u32::MAX as int,
    ensures
        r@ == spec_header(freq@),
{
    let pairs = freq.pairs();
    let mut body: Vec<u8> = Vec::new();
    let mut k: usize = 0;
    proof {
        assert(freq@.skip(0) =~= freq@);
        assert(body@ + spec_header_body(freq@.skip(0)) =~= spec_header_body(freq@));
    }
    while k < pairs.len()
        invariant
            k <= freq@.len(),
            pairs@ == freq@,
            body@ + spec_header_body(freq@.skip(k as int)) == spec_header_body(freq@),
        decreases freq@.len() - k,
    {
        proof {
            assert(freq@.skip(k as int)[0] == freq@[k as int]);
            assert(freq@.skip(k as int).drop_first() =~= freq@.skip(k + 1));
        }
        let ghost body_pre = body@;
        let e = pairs[k];
        let mut enc = utf8_of_char(e.0);
        proof {
            assert(1 <= enc@.len() <= 4);
        }
        body.push(enc.len() as u8);
        body.append(&mut enc);
        let mut fb = u32_to_le_bytes(e.1);
        body.append(&mut fb);
        proof {
            assert(body@ =~= body_pre + spec_entry_bytes(freq@[k as int].0, freq@[k as int].1));
            assert((body_pre + spec_entry_bytes(freq@[k as int].0, freq@[k as int].1))
                + spec_header_body(freq@.skip(k + 1)) =~= body_pre + (spec_entry_bytes(
                freq@[k as int].0,
                freq@[k as int].1,
            ) + spec_header_body(freq@.skip(k + 1))));
        }
        k = k + 1;
    }
    proof {
        assert(spec_header_body(freq@.skip(freq@.len() as int)) =~= Seq::<u8>::empty());
        assert(body@ + Seq::<u8>::empty() =~= body@);
    }
    let mut out = u32_to_le_bytes(body.len() as u32);
    out.append(&mut body);
    out
}

/// Parses a header body back into a frequency table.
#[verifier::loop_isolation(false)]
pub fn parse_header_body(bytes: &Vec<u8>) -> (r: Option<FreqTable>)
    ensures
        match r {
            Some(t) => spec_parse_entries(bytes@, 0, Seq::empty()) == Some(t@) && t.wf(),
            None => spec_parse_entries(bytes@, 0, Seq::empty()) is None,
        },
{
    let mut table = FreqTable::new();
    let mut i: usize = 0;
    while i < bytes.len()
        invariant
            i <= bytes@.len(),
            table.wf(),
            spec_parse_entries(bytes@, 0, Seq::empty()) == spec_parse_entries(
                bytes@,
                i as int,
                table@,
            ),
        decreases bytes@.len() - i,
    {
        let size = bytes[i] as usize;
        if bytes.len() - i - 1 < size {
            return None;
        }
        let cb = slice_subrange(bytes.as_slice(), i + 1, i + 1 + size);
        let cs = match chars_of_utf8(cb) {
            Some(cs) => cs,
            None => {
                return None;
            },
        };
        if cs.len() == 0 {
            return None;
        }
        let c = cs[0];
        if bytes.len() - i - 1 - size < 4 {
            return None;
        }
        let fb = slice_subrange(bytes.as_slice(), i + 1 + size, i + 5 + size);
        let f = u32_from_le_bytes(fb);
        table.set(c, f);
        i = i + 5 + size;
    }
    Some(table)
}

/// Storing a weight for a character the table does not hold appends it.
proof fn lemma_set_fresh(acc: Seq<(char, u32)>, c: char, w: u32)
    requires
        forall|k: int| 0 <= k < acc.len() ==> (#[trigger] acc[k]).0 != c,
    ensures
        spec_set(acc, c, w) == acc.push((c, w)),
    decreases acc.len(),
{
    if acc.len() == 0 {
        assert(seq![(c, w)] =~= acc.push((c, w)));
    } else {
        assert forall|k: int|
            0 <= k < acc.drop_first().len() implies (#[trigger] acc.drop_first()[k]).0 != c by {
            assert(acc.drop_first()[k] == acc[k + 1]);
        }
        lemma_set_fresh(acc.drop_first(), c, w);
        assert(seq![acc[0]] + acc.drop_first().push((c, w)) =~= acc.push((c, w)));
    }
}

/// Parsing the records of `entries`, laid out at position `i` and closing
/// the buffer, extends the accumulated table by exactly those entries.
proof fn lemma_parse_chunk(
    bytes: Seq<u8>,
    i: int,
    acc: Seq<(char, u32)>,
    entries: Seq<(char, u32)>,
)
    requires
        0 <= i,
        i + spec_header_body(entries).len() == bytes.len(),
        bytes.subrange(i, bytes.len() as int) == spec_header_body(entries),
        forall|p: int, q: int|
            0 <= p < q < (acc + entries).len() ==> (#[trigger] (acc + entries)[p]).0 != (
            #[trigger] (acc + entries)[q]).0,
    ensures
        spec_parse_entries(bytes, i, acc) == Some(acc + entries),
    decreases entries.len(),
{
    if entries.len() == 0 {
        assert(acc + entries =~= acc);
    } else {
        let c = entries[0].0;
        let f = entries[0].1;
        let enc = encode_scalar(c as u32);
        let eb = spec_entry_bytes(c, f);
        let rest = spec_header_body(entries.drop_first());
        lemma_auto_spec_u32_to_from_le_bytes();
        assert(1 <= enc.len() <= 4);
        lemma_chunk_split(bytes, i, eb, rest);
        lemma_chunk_split(bytes, i, seq![enc.len() as u8] + enc, spec_u32_to_le_bytes(f));
        lemma_chunk_split(bytes, i, seq![enc.len() as u8], enc);
        lemma_chunk_one(bytes, i, enc.len() as u8);
        assert(bytes[i] as int == enc.len());
        assert(seq![c].drop_first() =~= Seq::<char>::empty());
        assert(encode_utf8(Seq::<char>::empty()) =~= Seq::<u8>::empty());
        assert(encode_utf8(seq![c]) =~= enc);
        encode_utf8_valid_utf8(seq![c]);
        encode_utf8_decode_utf8(seq![c]);
        assert(valid_utf8(enc));
        assert(decode_utf8(enc) == seq![c]);
        assert(bytes.subrange(i + 1, i + 1 + enc.len()) == enc);
        assert(bytes.subrange(i + 1 + enc.len(), i + 5 + enc.len()) == spec_u32_to_le_bytes(f));
        assert(spec_u32_from_le_bytes(spec_u32_to_le_bytes(f)) == f);
        assert forall|k: int| 0 <= k < acc.len() implies (#[trigger] acc[k]).0 != c by {
            assert((acc + entries)[k] == acc[k]);
            assert((acc + entries)[acc.len() as int] == entries[0]);
        }
        lemma_set_fresh(acc, c, f);
        assert(acc.push(entries[0]) + entries.drop_first() =~= acc + entries);
        lemma_parse_chunk(bytes, i + 5 + enc.len(), acc.push(entries[0]), entries.drop_first());
    }
}

/// Law: the header body of a table with distinct keys parses back to
/// exactly that table's entries, in order.
pub proof fn lemma_header_round_trip(entries: Seq<(char, u32)>)
    requires
        forall|p: int, q: int|
            0 <= p < q < entries.len() ==> (#[trigger] entries[p]).0 != (
            #[trigger] entries[q]).0,
    ensures
        spec_parse_entries(spec_header_body(entries), 0, Seq::empty()) == Some(entries),
{
    let bytes = spec_header_body(entries);
    assert(bytes.subrange(0, bytes.len() as int) =~= bytes);
    assert(Seq::<(char, u32)>::empty() + entries =~= entries);
    lemma_parse_chunk(bytes, 0, Seq::empty(), entries);
}

} // verus!
