use npktool::codec::{decompress_lz4, decompress_zlib, is_zlib_stream, lz4_block_is_decodable};
use npktool::error::NeoXIndexError;
use npktool::inflate::zlib_stream_is_decodable;

#[test]
fn lz4_block_with_missing_length_byte_is_refused() {
    assert!(!lz4_block_is_decodable(&[0xF0]));
}

#[test]
fn lz4_block_with_zero_offset_is_refused() {
    assert!(!lz4_block_is_decodable(&[0x10, 0x61, 0x00, 0x00]));
}

#[test]
fn lz4_block_with_offset_before_the_output_is_refused() {
    assert!(!lz4_block_is_decodable(&[0x10, 0x61, 0x02, 0x00]));
}

#[test]
fn lz4_block_with_literal_past_the_end_is_refused() {
    assert!(!lz4_block_is_decodable(&[0x30, 0x61, 0x62]));
}

#[test]
fn lz4_literals_only_block_decodes() {
    let block = [0x40, b'a', b'b', b'c', b'd'];
    assert!(lz4_block_is_decodable(&block));
    assert_eq!(decompress_lz4(&block).unwrap(), b"abcd".to_vec());
}

#[test]
fn lz4_overlapping_match_repeats_the_last_byte() {
    let block = [0x11, b'a', 0x01, 0x00];
    assert!(lz4_block_is_decodable(&block));
    assert_eq!(decompress_lz4(&block).unwrap(), b"aaaaaa".to_vec());
}

#[test]
fn lz4_empty_block_decodes_to_a_failure() {
    assert!(lz4_block_is_decodable(&[]));
    assert!(matches!(decompress_lz4(&[]), Err(NeoXIndexError::DecompressFailedLZ4)));
}

#[test]
fn zlib_fixed_block_with_length_symbol_286_is_refused() {
    assert!(!zlib_stream_is_decodable(&[0x78, 0x9C, 0x1B, 0x03]));
}

#[test]
fn zlib_valid_streams_are_decodable() {
    let hello = [120u8, 156, 203, 72, 205, 201, 201, 87, 200, 64, 144, 0, 58, 46, 6, 125];
    assert!(zlib_stream_is_decodable(&hello));
    assert_eq!(decompress_zlib(&hello).unwrap(), b"hello hello hello".to_vec());
    let empty = [120u8, 156, 3, 0, 0, 0, 0, 1];
    assert!(zlib_stream_is_decodable(&empty));
    assert!(is_zlib_stream(&empty));
}

#[test]
fn zlib_bad_header_is_decodable_and_fails() {
    assert!(zlib_stream_is_decodable(&[1, 2, 3]));
    assert!(matches!(decompress_zlib(&[1, 2, 3]), Err(NeoXIndexError::DecompressFailedZLib)));
}

#[test]
fn zlib_truncated_stream_fails() {
    let hello = [120u8, 156, 203, 72, 205, 201, 201];
    assert!(zlib_stream_is_decodable(&hello));
    assert!(matches!(decompress_zlib(&hello), Err(NeoXIndexError::DecompressFailedZLib)));
}
