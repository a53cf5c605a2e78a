use deflate::bitstream::BitWriter;
use deflate::huffman_lengths::{remove_trailing_zeroes, rle_encode};
use deflate::huffman_table::{fixed_tables, reverse_bits, HuffmanTable};
use deflate::length_limit::huffman_lengths_from_frequency;
use deflate::lz77::{longest_match, lz77_compress_block, ChainedHashTable, DynamicWriter, LDPair, LZ77State};
use deflate::zlib::write_u32_be;

#[test]
fn bit_writer_packs_lsb_first() {
    let mut w = BitWriter::new();
    w.write_bits(0b1, 1);
    w.write_bits(0b01, 2);
    w.write_bits(0b11111, 5);
    w.write_bits(0b101, 3);
    w.flush();
    assert_eq!(w.out, vec![0b1111_1011, 0b0000_0101]);
}

#[test]
fn canonical_codes_of_rfc_example() {
    // Lengths (3, 3, 3, 3, 3, 2, 4, 4) give codes 010, 011, 100, 101, 110, 00, 1110, 1111.
    let t = HuffmanTable::from_lengths(vec![3, 3, 3, 3, 3, 2, 4, 4]).unwrap();
    let expected = [(0b010, 3), (0b011, 3), (0b100, 3), (0b101, 3), (0b110, 3), (0b00, 2), (0b1110, 4), (0b1111, 4)];
    for (s, &(code, len)) in expected.iter().enumerate() {
        assert_eq!(t.lengths[s], len as u8);
        assert_eq!(t.codes[s], reverse_bits(code, len));
    }
}

#[test]
fn oversubscribed_lengths_are_refused() {
    assert!(HuffmanTable::from_lengths(vec![1, 1, 1]).is_none());
    assert!(HuffmanTable::from_lengths(vec![16, 1]).is_none());
    assert!(HuffmanTable::from_lengths(vec![1, 1]).is_some());
}

#[test]
fn fixed_code_values() {
    let (lt, dt) = fixed_tables();
    assert_eq!(lt.lengths.len(), 288);
    assert_eq!(dt.lengths.len(), 30);
    // Literal 0 is 00110000, literal 144 is 110010000, symbol 256 is 0000000, 280 is 11000000.
    assert_eq!(lt.codes[0], reverse_bits(0b0011_0000, 8));
    assert_eq!(lt.codes[144], reverse_bits(0b1_1001_0000, 9));
    assert_eq!(lt.codes[256], 0);
    assert_eq!(lt.codes[280], reverse_bits(0b1100_0000, 8));
    assert_eq!(dt.codes[3], reverse_bits(3, 5));
}

#[test]
fn lengths_from_frequencies() {
    let r = huffman_lengths_from_frequency(&[0, 5, 0, 0], 15);
    assert_eq!(r, vec![0, 1, 0, 0]);
    let r = huffman_lengths_from_frequency(&[8, 4, 2, 1, 1, 0], 15);
    assert_eq!(r, vec![1, 2, 3, 4, 4, 0]);
    let r = huffman_lengths_from_frequency(&[0, 0], 7);
    assert_eq!(r, vec![0, 0]);
}

#[test]
fn length_limit_is_kept() {
    // Fibonacci-like frequencies would give a tree deeper than 7.
    let freqs: Vec<u32> = vec![1, 1, 2, 3, 5, 8, 13, 21, 34, 55, 89, 144, 233, 377];
    let r = huffman_lengths_from_frequency(&freqs, 7);
    assert!(r.iter().all(|&l| l >= 1 && l <= 7));
    assert!(HuffmanTable::from_lengths(r).is_some());
}

#[test]
fn trailing_zeroes_are_trimmed() {
    assert_eq!(remove_trailing_zeroes(&vec![1, 0, 2, 0, 0], 1), vec![1, 0, 2]);
    assert_eq!(remove_trailing_zeroes(&vec![0, 0, 0, 0], 2), vec![0, 0]);
}

#[test]
fn run_length_coding_of_lengths() {
    let mut ls = vec![8u8; 10];
    ls.extend(vec![0u8; 20]);
    ls.extend(vec![5u8, 5, 0, 0]);
    let r = rle_encode(&ls);
    assert_eq!(r, vec![(8, 0), (16, 3), (16, 0), (18, 9), (5, 0), (5, 0), (0, 0), (0, 0)]);
    let zeros = vec![0u8; 150];
    assert_eq!(rle_encode(&zeros), vec![(18, 127), (18, 1)]);
    let zeros = vec![0u8; 145];
    assert_eq!(rle_encode(&zeros), vec![(18, 127), (17, 4)]);
}

#[test]
fn matcher_emits_back_references() {
    let input = b"abcabcabcabcX";
    let mut state = LZ77State::new();
    let mut w = DynamicWriter::new();
    lz77_compress_block(input, &mut state, &mut w);
    assert_eq!(state.pos, input.len());
    assert_eq!(
        w.buffer,
        vec![
            LDPair::Literal(b'a'),
            LDPair::Literal(b'b'),
            LDPair::Literal(b'c'),
            LDPair::LengthDistance(9, 3),
            LDPair::Literal(b'X'),
        ]
    );
    assert_eq!(w.lit_freq[b'a' as usize], 1);
    assert_eq!(w.lit_freq[257 + 6], 1);
    assert_eq!(w.dist_freq[2], 1);
}

#[test]
fn big_endian_trailer() {
    let mut out = vec![9u8];
    write_u32_be(&mut out, 0x11e6_0398);
    assert_eq!(out, vec![9, 0x11, 0xe6, 0x03, 0x98]);
}

#[test]
fn block_type_in_first_header() {
    let medium: Vec<u8> = (0..30u8).collect();
    assert_eq!(deflate::deflate_bytes(&medium)[0] & 0x07, 0x03);
    let long: Vec<u8> = (0..100u8).collect();
    let out = deflate::deflate_bytes(&long);
    assert_eq!(out[0] & 0x07, 0x05);
    // A dynamic block with no matches still sends at least two distance codes (HDIST >= 1).
    let hdist = ((out[1] as u16 | (out[2] as u16) << 8) >> 2) & 0x1f;
    assert!(hdist >= 1);
}

#[test]
fn longest_match_on_chain() {
    let input = b"xyzabcdxyzabcQ";
    let mut t = ChainedHashTable::new();
    assert_eq!(longest_match(input, &t, 7).0, 0);
    for p in 0..7 {
        t.insert(input, p);
    }
    assert_eq!(longest_match(input, &t, 7), (6, 7));
}
