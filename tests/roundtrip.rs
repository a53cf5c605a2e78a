use deflate::stored_block::compress_data_stored;
use deflate::{compress_data_fixed, deflate_bytes, deflate_bytes_zlib};
use std::io::Read;

fn decompress_to_end(input: &[u8]) -> Vec<u8> {
    let mut result = Vec::new();
    let mut e = flate2::read::DeflateDecoder::new(input);
    e.read_to_end(&mut result).unwrap();
    result
}

fn decompress_zlib(compressed: &[u8]) -> Vec<u8> {
    let mut result = Vec::new();
    let mut e = flate2::read::ZlibDecoder::new(compressed);
    e.read_to_end(&mut result).unwrap();
    result
}

/// A long English text with the repetition typical of real documents.
fn get_test_data() -> Vec<u8> {
    let paragraphs = [
        "The licenses for most software are designed to take away your freedom to share and change it. ",
        "By contrast, the GNU General Public License is intended to guarantee your freedom to share and change free software. ",
        "When we speak of free software, we are referring to freedom, not price. ",
        "To protect your rights, we need to make restrictions that forbid anyone to deny you these rights. ",
        "For example, if you distribute copies of such a program, whether gratis or for a fee, you must give the recipients all the rights that you have.\n",
    ];
    let mut out = Vec::new();
    let mut n: usize = 0;
    while out.len() < 200_000 {
        let p = paragraphs[n % paragraphs.len()];
        out.extend_from_slice(p.as_bytes());
        out.extend_from_slice(format!("Section {}. ", n * 7 % 131).as_bytes());
        n += 1;
    }
    out
}

#[test]
fn test_no_compression_one_chunk() {
    let test_data = vec![1u8, 2, 3, 4, 5, 6, 7, 8];
    let compressed = compress_data_stored(&test_data);
    let result = decompress_to_end(&compressed);
    assert_eq!(test_data, result);
}

#[test]
fn test_no_compression_multiple_chunks() {
    let test_data = vec![32u8; 40000];
    let compressed = compress_data_stored(&test_data);
    let result = decompress_to_end(&compressed);
    assert_eq!(test_data, result);
}

#[test]
fn test_no_compression_string() {
    let test_data = String::from(
        "This is some text, this is some more text, this is even \
         more text, lots of text here.",
    )
    .into_bytes();
    let compressed = compress_data_stored(&test_data);
    let result = decompress_to_end(&compressed);
    assert_eq!(test_data, result);
}

#[test]
fn test_fixed_string_mem() {
    let test_data = String::from("                    GNU GENERAL PUBLIC LICENSE").into_bytes();
    let compressed = compress_data_fixed(&test_data);
    let result = decompress_to_end(&compressed);
    println!("Output: `{}`", std::str::from_utf8(&result).unwrap());
    assert_eq!(test_data, result);
}

#[test]
fn test_fixed_data() {
    let data = vec![190u8; 400];
    let compressed = compress_data_fixed(&data);
    let result = decompress_to_end(&compressed);
    println!("data len: {}, result len: {}", data.len(), result.len());
    assert_eq!(data, result);
    assert!(compressed.len() < data.len() / 10);
}

#[test]
fn test_fixed_example() {
    let test_data = b"Deflate late";
    let check = [0x73, 0x49, 0x4d, 0xcb, 0x49, 0x2c, 0x49, 0x55, 0x00, 0x11, 0x00];
    let compressed = compress_data_fixed(test_data);
    assert_eq!(&compressed, &check);
    let decompressed = decompress_to_end(&compressed);
    assert_eq!(&decompressed, test_data)
}

#[test]
fn test_fixed_string_file() {
    let input = get_test_data();
    let compressed = compress_data_fixed(&input);
    println!("Compressed len: {}", compressed.len());
    let result = decompress_to_end(&compressed);
    assert!(input == result);
}

#[test]
fn test_dynamic_string_mem() {
    let test_data = String::from("                    GNU GENERAL PUBLIC LICENSE").into_bytes();
    let compressed = deflate_bytes(&test_data);
    assert!(compressed.len() < test_data.len());
    let result = decompress_to_end(&compressed);
    assert_eq!(test_data, result);
}

#[test]
fn test_dynamic_string_file() {
    let input = get_test_data();
    let compressed = deflate_bytes(&input);
    println!("Compressed len: {}", compressed.len());
    let result = decompress_to_end(&compressed);
    assert!(compressed.len() < input.len());
    assert!(input == result);
}

#[test]
fn test_file_zlib() {
    let test_data = get_test_data();
    let compressed = deflate_bytes_zlib(&test_data);
    println!("compressed length: {}", compressed.len());
    assert!(compressed.len() < test_data.len());
    let result = decompress_zlib(&compressed);
    assert!(&test_data == &result);
}

#[test]
fn test_zlib_short() {
    let test_data = [10, 20, 30, 40, 55];
    let compressed = deflate_bytes_zlib(&test_data);
    let result = decompress_zlib(&compressed);
    assert_eq!(&test_data, result.as_slice());
}

#[test]
fn test_zlib_last_block() {
    let mut test_data = vec![22; 32768];
    test_data.extend(&[5, 2, 55, 11, 12]);
    let compressed = deflate_bytes_zlib(&test_data);
    let result = decompress_zlib(&compressed);
    assert!(test_data == result);
}
