use deflate::huffman_table::reverse_bits;
use deflate::length_encode::{dist_code, length_code};
use deflate::stored_block::compress_data_stored;
use deflate::{block_type_for_length, deflate_bytes, deflate_bytes_zlib, BType};
use std::io::Read;

fn inflate(input: &[u8]) -> Vec<u8> {
    let mut result = Vec::new();
    flate2::read::DeflateDecoder::new(input).read_to_end(&mut result).unwrap();
    result
}

fn inflate_zlib(input: &[u8]) -> Vec<u8> {
    let mut result = Vec::new();
    flate2::read::ZlibDecoder::new(input).read_to_end(&mut result).unwrap();
    result
}

fn pseudo_random(n: usize, seed: u32) -> Vec<u8> {
    let mut x = seed;
    (0..n)
        .map(|_| {
            x = x.wrapping_mul(1103515245).wrapping_add(12345);
            (x >> 16) as u8
        })
        .collect()
}

#[test]
fn block_type_thresholds() {
    assert_eq!(block_type_for_length(0), BType::NoCompression);
    assert_eq!(block_type_for_length(19), BType::NoCompression);
    assert_eq!(block_type_for_length(20), BType::FixedHuffman);
    assert_eq!(block_type_for_length(69), BType::FixedHuffman);
    assert_eq!(block_type_for_length(70), BType::DynamicHuffman);
}

#[test]
fn empty_input_round_trips() {
    let compressed = deflate_bytes(&[]);
    assert_eq!(compressed, vec![1, 0, 0, 0xff, 0xff]);
    assert!(inflate(&compressed).is_empty());
    let z = deflate_bytes_zlib(&[]);
    assert_eq!(z, vec![0x78, 0x9c, 1, 0, 0, 0xff, 0xff, 0, 0, 0, 1]);
    assert!(inflate_zlib(&z).is_empty());
}

#[test]
fn stored_framing_bytes() {
    let data = [0x01u8, 0x02, 0x03];
    assert_eq!(compress_data_stored(&data), vec![1, 3, 0, 0xfc, 0xff, 1, 2, 3]);
    let big = vec![7u8; 65536];
    let out = compress_data_stored(&big);
    assert_eq!(out.len(), 65536 + 10);
    assert_eq!(&out[0..5], &[0, 0xff, 0xff, 0, 0]);
    assert_eq!(&out[65540..65545], &[1, 1, 0, 0xfe, 0xff]);
    assert_eq!(inflate(&out), big);
}

#[test]
fn zlib_header_and_trailer() {
    let data = b"Wikipedia is a free online encyclopedia written by volunteers.".to_vec();
    let z = deflate_bytes_zlib(&data);
    assert_eq!(z[0], 0x78);
    assert_eq!(z[1], 0x9c);
    assert_eq!((z[0] as u32 * 256 + z[1] as u32) % 31, 0);
    let short = deflate_bytes_zlib(b"Wikipedia");
    assert_eq!(&short[short.len() - 4..], &[0x11, 0xe6, 0x03, 0x98]);
    assert_eq!(inflate_zlib(&z), data);
}

#[test]
fn round_trip_many_sizes() {
    for &n in &[1usize, 19, 20, 21, 69, 70, 71, 300, 5000, 32768, 32769, 40000, 70000] {
        let mut data = pseudo_random(n, n as u32);
        for i in 0..n {
            if i % 3 == 0 {
                data[i] = b'a' + (i % 5) as u8;
            }
        }
        assert_eq!(inflate(&deflate_bytes(&data)), data, "raw, size {}", n);
        assert_eq!(inflate_zlib(&deflate_bytes_zlib(&data)), data, "zlib, size {}", n);
    }
}

#[test]
fn round_trip_random_bytes() {
    let data = pseudo_random(100_000, 7);
    assert_eq!(inflate(&deflate_bytes(&data)), data);
}

#[test]
fn deterministic_output() {
    let data = pseudo_random(10_000, 3);
    assert_eq!(deflate_bytes(&data), deflate_bytes(&data));
    assert_eq!(deflate_bytes_zlib(&data), deflate_bytes_zlib(&data));
}

#[test]
fn repetitive_input_shrinks() {
    let data: Vec<u8> = b"abcabcabdabcabcabd".iter().cycle().take(1000).cloned().collect();
    let compressed = deflate_bytes(&data);
    assert!(compressed.len() < data.len() / 5);
    assert_eq!(inflate(&compressed), data);
}

#[test]
fn block_boundary_round_trips() {
    for k in 0..5usize {
        let mut data: Vec<u8> = (0..32768 + k).map(|i| (i % 251) as u8).collect();
        data[100] = 9;
        assert_eq!(inflate(&deflate_bytes(&data)), data);
    }
}

#[test]
fn reverse_bits_values() {
    assert_eq!(reverse_bits(0b1, 1), 0b1);
    assert_eq!(reverse_bits(0b110, 3), 0b011);
    assert_eq!(reverse_bits(0b00110000, 8), 0b00001100);
    assert_eq!(reverse_bits(0x1234, 16), 0x2c48);
}

#[test]
fn length_and_distance_codes() {
    assert_eq!(length_code(3), (0, 0, 0));
    assert_eq!(length_code(10), (7, 0, 0));
    assert_eq!(length_code(11), (8, 0, 1));
    assert_eq!(length_code(12), (8, 1, 1));
    assert_eq!(length_code(257), (27, 30, 5));
    assert_eq!(length_code(258), (28, 0, 0));
    assert_eq!(dist_code(1), (0, 0, 0));
    assert_eq!(dist_code(5), (4, 0, 1));
    assert_eq!(dist_code(6), (4, 1, 1));
    assert_eq!(dist_code(32768), (29, 8191, 13));
}
