use parsekit::huffman::bits::{decode_payload, pack_bits, text_bits};
use parsekit::huffman::freq::{count_frequencies, FreqTable};
use parsekit::huffman::header::{header_bytes, parse_header_body};
use parsekit::huffman::tree::HuffmanTree;

#[test]
fn one_bit_codes_pack_to_expected_byte() {
    // A text over two characters gets one-bit codes; "a\naaa" packs to the
    // single padded byte 184.
    let mut table = FreqTable::new();
    table.set('\n', 1);
    table.set('a', 4);
    let tree = HuffmanTree::build_huffman(&table).unwrap();
    let codes = HuffmanTree::gen_char_code_map(tree);
    assert_eq!(codes.get('a'), Some("1".to_string()));
    assert_eq!(codes.get('\n'), Some("0".to_string()));

    let chars: Vec<char> = "a\naaa".chars().collect();
    let bits = text_bits(&chars, &codes);
    assert_eq!(bits, vec![1, 0, 1, 1, 1]);
    let packed = pack_bits(&bits);
    assert_eq!(packed, vec![184]);
}

#[test]
fn payload_decodes_back() {
    let mut table = FreqTable::new();
    table.set('\n', 1);
    table.set('a', 4);
    let tree = HuffmanTree::build_huffman(&table).unwrap();
    let rev = HuffmanTree::gen_code_char_map(tree);

    let decoded = decode_payload(&rev, &vec![184], 5).unwrap();
    let text: String = decoded.into_iter().collect();
    assert_eq!(text, "a\naaa");
}

#[test]
fn full_codec_round_trip() {
    let chars: Vec<char> = "àéÔ%*$abcd1234([][][][][);".chars().collect();
    let table = count_frequencies(&chars);
    let tree = HuffmanTree::build_huffman(&table).unwrap();
    let tree2 = HuffmanTree::build_huffman(&table).unwrap();
    let codes = HuffmanTree::gen_char_code_map(tree);
    let rev = HuffmanTree::gen_code_char_map(tree2);

    let bits = text_bits(&chars, &codes);
    let packed = pack_bits(&bits);
    let decoded = decode_payload(&rev, &packed, chars.len()).unwrap();
    assert_eq!(decoded, chars);
}

#[test]
fn truncated_payload_is_rejected() {
    let mut table = FreqTable::new();
    table.set('x', 2);
    table.set('y', 3);
    let tree = HuffmanTree::build_huffman(&table).unwrap();
    let rev = HuffmanTree::gen_code_char_map(tree);
    // No bytes at all cannot yield nine characters.
    assert!(decode_payload(&rev, &vec![], 9).is_none());
}

#[test]
fn header_round_trips_through_bytes() {
    let mut table = FreqTable::new();
    table.set('a', 10);
    table.set('\n', 100000);
    table.set('\u{feff}', 800000);

    let bytes = header_bytes(&table);
    // The first four bytes carry the body length, little endian.
    let body_len =
        u32::from_le_bytes([bytes[0], bytes[1], bytes[2], bytes[3]]) as usize;
    assert_eq!(body_len + 4, bytes.len());
    let body: Vec<u8> = bytes[4..].to_vec();
    let read = parse_header_body(&body).unwrap();
    assert_eq!(read.len(), table.len());
    assert_eq!(read.get('a'), Some(10));
    assert_eq!(read.get('\n'), Some(100000));
    assert_eq!(read.get('\u{feff}'), Some(800000));
}

#[test]
fn corrupt_header_is_rejected() {
    // A record that promises four character bytes but ends early.
    assert!(parse_header_body(&vec![4, 0x61]).is_none());
    // A record whose character bytes are not valid UTF-8.
    assert!(parse_header_body(&vec![1, 0xFF, 0, 0, 0, 0]).is_none());
}
