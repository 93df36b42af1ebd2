//! Packing code words into bytes and unpacking them again: the computing
//! cores of writing and reading a compressed payload. Bits are laid out
//! most significant first, and the last byte is padded with zero bits.

use vstd::prelude::*;
use crate::huffman::codes::{
    CharCodeMap, CodeCharMap, spec_code_of, spec_char_of, spec_max_code_len,
};
use crate::text::push_char;
use vstd::pervasive::unreached;
use vstd::string::StrSliceExecFns;

verus! {

/// Two to the `n`th power.
pub open spec fn pow2(n: int) -> int
    decreases n,
{
    if n <= 0 {
        1
    } else {
        2 * pow2(n - 1)
    }
}

/// The bit a code word character stands for: `1` for `'1'`, `0` for
/// anything else.
pub open spec fn spec_bit(ch: char) -> u8 {
    if ch == '1' {
        1
    } else {
        0
    }
}

/// The bits a code word stands for.
pub open spec fn spec_code_bits(code: Seq<char>) -> Seq<u8> {
    Seq::new(code.len(), |i: int| spec_bit(code[i]))
}

/// The concatenated bits of a text under a code map. Meaningful only when
/// every character has a code.
pub open spec fn spec_bits(chars: Seq<char>, codes: Seq<(char, Seq<char>)>) -> Seq<u8>
    decreases chars.len(),
{
    if chars.len() == 0 {
        Seq::empty()
    } else {
        spec_code_bits(spec_code_of(codes, chars[0])->Some_0) + spec_bits(
            chars.drop_first(),
            codes,
        )
    }
}

/// The value of a run of bits, most significant first.
pub open spec fn byte_of_bits(bits: Seq<u8>) -> int
    decreases bits.len(),
{
    if bits.len() == 0 {
        0
    } else {
        byte_of_bits(bits.drop_last()) * 2 + bits.last()
    }
}

/// Bits packed into bytes, eight at a time, the last byte padded with
/// zero bits on the right.
pub open spec fn spec_pack(bits: Seq<u8>) -> Seq<u8>
    decreases bits.len(),
{
    if bits.len() == 0 {
        Seq::empty()
    } else if bits.len() >= 8 {
        seq![byte_of_bits(bits.take(8)) as u8] + spec_pack(bits.skip(8))
    } else {
        seq![(byte_of_bits(bits) * pow2(8 - bits.len())) as u8]
    }
}

/// A bit run of zeros and ones is worth less than two to its length.
proof fn lemma_byte_bound(bits: Seq<u8>)
    requires
        forall|i: int| 0 <= i < bits.len() ==> #[trigger] bits[i] <= 1,
    ensures
        0 <= byte_of_bits(bits) < pow2(bits.len() as int),
    decreases bits.len(),
{
    if bits.len() > 0 {
        lemma_byte_bound(bits.drop_last());
    }
}

proof fn lemma_pow2_pos(n: int)
    ensures
        pow2(n) >= 1,
    decreases n,
{
    if n > 0 {
        lemma_pow2_pos(n - 1);
    }
}

proof fn lemma_pow2_mono(a: int, b: int)
    requires
        0 <= a <= b,
    ensures
        pow2(a) <= pow2(b),
    decreases b,
{
    if a < b {
        lemma_pow2_mono(a, b - 1);
        lemma_pow2_pos(b - 1);
    }
}

/// The bits of a text under a code map, as zeros and ones.
#[verifier::loop_isolation(false)]
pub fn text_bits(chars: &Vec<char>, codes: &CharCodeMap) -> (r: Vec<u8>)
    requires
        forall|k: int|
            0 <= k < chars@.len() ==> spec_code_of(codes@, #[trigger] chars@[k]) is Some,
    ensures
        r@ == spec_bits(chars@, codes@),
        forall|i: int| 0 <= i < r@.len() ==> #[trigger] r@[i] <= 1,
{
    let mut bits: Vec<u8> = Vec::new();
    let mut k: usize = 0;
    proof {
        assert(chars@.skip(0) =~= chars@);
        assert(bits@ + spec_bits(chars@.skip(0), codes@) =~= spec_bits(chars@, codes@));
    }
    while k < chars.len()
        invariant
            k <= chars@.len(),
            forall|i: int| 0 <= i < bits@.len() ==> #[trigger] bits@[i] <= 1,
            bits@ + spec_bits(chars@.skip(k as int), codes@) == spec_bits(chars@, codes@),
        decreases chars@.len() - k,
    {
        proof {
            assert(chars@.skip(k as int)[0] == chars@[k as int]);
            assert(chars@.skip(k as int).drop_first() =~= chars@.skip(k + 1));
        }
        let code: String = match codes.get(chars[k]) {
            Some(code) => code,
            None => unreached(),
        };
        let ghost pre = bits@;
        let n = code.as_str().unicode_len();
        let mut j: usize = 0;
        while j < n
            invariant
                j <= n,
                n == code@.len(),
                forall|i: int| 0 <= i < bits@.len() ==> #[trigger] bits@[i] <= 1,
                bits@ == pre + spec_code_bits(code@).take(j as int),
            decreases n - j,
        {
            let ch = code.as_str().get_char(j);
            let b: u8 = if ch == '1' {
                1
            } else {
                0
            };
            bits.push(b);
            proof {
                assert(bits@ =~= pre + spec_code_bits(code@).take(j + 1));
            }
            j = j + 1;
        }
        proof {
            assert(spec_code_bits(code@).take(n as int) =~= spec_code_bits(code@));
            assert(spec_code_of(codes@, chars@[k as int])->Some_0 == code@);
            assert((pre + spec_code_bits(code@)) + spec_bits(chars@.skip(k + 1), codes@) =~= pre
                + (spec_code_bits(code@) + spec_bits(chars@.skip(k + 1), codes@)));
        }
        k = k + 1;
    }
    proof {
        assert(chars@.skip(chars@.len() as int).len() == 0);
        assert(bits@ + Seq::<u8>::empty() =~= bits@);
    }
    bits
}

/// Powers of two multiply as their exponents add.
proof fn lemma_pow2_add(a: int, b: int)
    requires
        0 <= a,
        0 <= b,
    ensures
        pow2(a + b) == pow2(a) * pow2(b),
    decreases a,
{
    if a > 0 {
        lemma_pow2_add(a - 1, b);
        assert(pow2(a + b) == 2 * pow2(a - 1 + b));
        assert(2 * (pow2(a - 1) * pow2(b)) == (2 * pow2(a - 1)) * pow2(b)) by (nonlinear_arith);
    }
}

/// Packs a run of bits into bytes, eight at a time, padding the last byte
/// with zero bits.
#[verifier::loop_isolation(false)]
pub fn pack_bits(bits: &Vec<u8>) -> (r: Vec<u8>)
    requires
        forall|i: int| 0 <= i < bits@.len() ==> #[trigger] bits@[i] <= 1,
    ensures
        r@ == spec_pack(bits@),
{
    proof {
        reveal_with_fuel(pow2, 10);
    }
    let mut out: Vec<u8> = Vec::new();
    let mut i: usize = 0;
    proof {
        assert(bits@.skip(0) =~= bits@);
        assert(out@ + spec_pack(bits@.skip(0)) =~= spec_pack(bits@));
    }
    while bits.len() - i >= 8
        invariant
            i <= bits@.len(),
            out@ + spec_pack(bits@.skip(i as int)) == spec_pack(bits@),
        decreases bits@.len() - i,
    {
        let ghost chunk = bits@.skip(i as int).take(8);
        let mut acc: u8 = 0;
        let mut j: usize = 0;
        proof {
            assert(chunk.take(0) =~= Seq::<u8>::empty());
            reveal_with_fuel(pow2, 10);
        }
        while j < 8
            invariant
                j <= 8,
                i + 8 <= bits@.len() && i + 8 >= 0,
                chunk == bits@.skip(i as int).take(8),
                acc as int == byte_of_bits(chunk.take(j as int)),
                (acc as int) < pow2(j as int),
            decreases 8 - j,
        {
            proof {
                reveal_with_fuel(pow2, 10);
                lemma_pow2_mono(j as int, 7);
                assert(chunk.take(j + 1).drop_last() =~= chunk.take(j as int));
                assert(chunk.take(j + 1).last() == bits@[i + j]);
            }
            let b = bits[i + j];
            acc = acc + acc + b;
            j = j + 1;
        }
        let ghost out_pre = out@;
        out.push(acc);
        proof {
            assert(chunk.take(8) =~= chunk);
            assert(bits@.skip(i as int).skip(8) =~= bits@.skip(i + 8));
            assert(spec_pack(bits@.skip(i as int)) == seq![
                byte_of_bits(chunk) as u8,
            ] + spec_pack(bits@.skip(i + 8)));
            assert(out@ =~= out_pre + seq![byte_of_bits(chunk) as u8]);
            assert((out_pre + seq![byte_of_bits(chunk) as u8]) + spec_pack(bits@.skip(i + 8))
                =~= out_pre + (seq![byte_of_bits(chunk) as u8] + spec_pack(bits@.skip(i + 8))));
        }
        i = i + 8;
    }
    if i < bits.len() {
        let ghost tail = bits@.skip(i as int);
        let m = bits.len() - i;
        let mut acc: u8 = 0;
        let mut j: usize = 0;
        proof {
            assert(tail.take(0) =~= Seq::<u8>::empty());
            reveal_with_fuel(pow2, 10);
        }
        while j < m
            invariant
                j <= m,
                i < bits@.len(),
                m == bits@.len() - i,
                m < 8,
                tail == bits@.skip(i as int),
                acc as int == byte_of_bits(tail.take(j as int)),
                (acc as int) < pow2(j as int),
            decreases m - j,
        {
            proof {
                reveal_with_fuel(pow2, 10);
                lemma_pow2_mono(j as int, 6);
                assert(tail.take(j + 1).drop_last() =~= tail.take(j as int));
                assert(tail.take(j + 1).last() == bits@[i + j]);
            }
            let b = bits[i + j];
            acc = acc + acc + b;
            j = j + 1;
        }
        proof {
            assert(tail.take(m as int) =~= tail);
        }
        let mut pad: usize = 0;
        while pad < 8 - m
            invariant
                pad <= 8 - m,
                1 <= m < 8,
                tail == bits@.skip(i as int),
                m == tail.len(),
                acc as int == byte_of_bits(tail) * pow2(pad as int),
                (acc as int) < pow2(m + pad),
            decreases 8 - m - pad,
        {
            proof {
                reveal_with_fuel(pow2, 10);
                lemma_pow2_mono((m + pad) as int, 7);
                assert(2 * (byte_of_bits(tail) * pow2(pad as int)) == byte_of_bits(tail) * (2
                    * pow2(pad as int))) by (nonlinear_arith);
            }
            acc = acc + acc;
            pad = pad + 1;
        }
        let ghost out_pre = out@;
        out.push(acc);
        proof {
            reveal_with_fuel(pow2, 10);
            assert(acc as int == byte_of_bits(tail) * pow2(8 - m));
            lemma_byte_bound(tail);
            lemma_pow2_add(m as int, 8 - m as int);
            assert(byte_of_bits(tail) * pow2(8 - m) < pow2(m as int) * pow2(8 - m as int)) by (
            nonlinear_arith)
                requires
                    byte_of_bits(tail) < pow2(m as int),
                    pow2(8 - m as int) > 0,
            ;
            assert(acc as int == (byte_of_bits(tail) * pow2(8 - tail.len())));
            assert(spec_pack(tail) == seq![(byte_of_bits(tail) * pow2(8 - tail.len())) as u8]);
            assert(out@ =~= out_pre + spec_pack(tail));
        }
    } else {
        proof {
            assert(bits@.skip(i as int).len() == 0);
            assert(spec_pack(bits@.skip(i as int)) =~= Seq::<u8>::empty());
            assert(out@ + Seq::<u8>::empty() =~= out@);
        }
    }
    out
}

/// The `j`th bit of a byte, most significant first.
pub open spec fn spec_bit_at(b: u8, j: int) -> u8 {
    (b >> ((7 - j) as u8)) & 1
}

/// The bits of a byte run, most significant first within each byte.
pub open spec fn spec_bits_of_bytes(bytes: Seq<u8>) -> Seq<u8> {
    Seq::new(bytes.len() * 8, |i: int| spec_bit_at(bytes[i / 8], i % 8))
}

/// How many bits remain at position `pos`, clamped to zero.
pub open spec fn spec_bits_remaining(bits: Seq<u8>, pos: int) -> int {
    if bits.len() - pos >= 0 {
        bits.len() - pos
    } else {
        0
    }
}

/// Decodes `need` characters from a bit run: bits are accumulated into a
/// prefix until the prefix is a code word, whose character is emitted.
/// `None` when the bits run out first, or when the prefix grows past the
/// longest code word without matching one.
pub open spec fn spec_decode(
    table: Seq<(Seq<char>, char)>,
    bits: Seq<u8>,
    pos: int,
    prefix: Seq<char>,
    need: nat,
) -> Option<Seq<char>>
    decreases spec_bits_remaining(bits, pos), need,
{
    if need == 0 {
        Some(Seq::empty())
    } else if pos < 0 || pos >= bits.len() {
        None
    } else {
        let p2 = prefix.push(if bits[pos] == 1 {
            '1'
        } else {
            '0'
        });
        match spec_char_of(table, p2) {
            Some(c) => match spec_decode(table, bits, pos + 1, Seq::empty(), (need - 1) as nat) {
                Some(rest) => Some(seq![c] + rest),
                None => None,
            },
            None => if p2.len() > spec_max_code_len(table) {
                None
            } else {
                spec_decode(table, bits, pos + 1, p2, need)
            },
        }
    }
}

/// Decodes `count` characters from a packed payload under a code map.
#[verifier::loop_isolation(false)]
pub fn decode_payload(codes: &CodeCharMap, bytes: &Vec<u8>, count: usize) -> (r: Option<
    Vec<char>,
>)
    requires
        bytes@.len() * 8 <= usize::MAX as int,
    ensures
        match r {
            Some(cs) => spec_decode(
                codes@,
                spec_bits_of_bytes(bytes@),
                0,
                Seq::empty(),
                count as nat,
            ) == Some(cs@),
            None => spec_decode(
                codes@,
                spec_bits_of_bytes(bytes@),
                0,
                Seq::empty(),
                count as nat,
            ) is None,
        },
{
    let ghost bits = spec_bits_of_bytes(bytes@);
    let max_len = codes.max_code_len();
    let total = bytes.len() * 8;
    let mut decoded: Vec<char> = Vec::new();
    let mut prefix = String::new();
    let mut pos: usize = 0;
    while decoded.len() < count
        invariant
            decoded@.len() <= count,
            pos <= total,
            total == bits.len(),
            spec_decode(codes@, bits, 0, Seq::empty(), count as nat) == (match spec_decode(
                codes@,
                bits,
                pos as int,
                prefix@,
                (count - decoded@.len()) as nat,
            ) {
                Some(rest) => Some(decoded@ + rest),
                None => None::<Seq<char>>,
            }),
        decreases total - pos,
    {
        if pos >= total {
            return None;
        }
        let b = bytes[pos / 8];
        let sh: u8 = (7 - (pos % 8)) as u8;
        let bit = (b >> sh) & 1;
        proof {
            assert(bits[pos as int] == spec_bit_at(bytes@[pos as int / 8], pos as int % 8));
            assert(bit == bits[pos as int]);
        }
        let c: char = if bit == 1 {
            '1'
        } else {
            '0'
        };
        push_char(&mut prefix, c);
        match codes.get(&prefix) {
            Some(ch) => {
                let ghost dec_pre = decoded@;
                decoded.push(ch);
                prefix = String::new();
                proof {
                    assert(decoded@ =~= dec_pre.push(ch));
                    assert forall|rest: Seq<char>|
                        dec_pre + (seq![ch] + rest) =~= decoded@ + rest by {}
                }
                if decoded.len() == count {
                    pos = pos + 1;
                    proof {
                        assert(spec_decode(codes@, bits, pos as int, prefix@, 0nat) == Some(
                            Seq::<char>::empty(),
                        ));
                        assert(decoded@ + Seq::<char>::empty() =~= decoded@);
                    }
                    return Some(decoded);
                }
            },
            None => {
                let plen = prefix.as_str().unicode_len();
                if plen > max_len {
                    return None;
                }
            },
        }
        pos = pos + 1;
    }
    proof {
        assert(spec_decode(codes@, bits, pos as int, prefix@, 0nat) == Some(Seq::<char>::empty()));
        assert(decoded@ + Seq::<char>::empty() =~= decoded@);
    }
    Some(decoded)
}

} // verus!
