use npktool::error::{NeoXIndexError, Npk2Error};
use npktool::index::{
    NeoXIndex, NeoXIndex1, NeoXIndex1_2, NeoXIndex1_32, NeoXIndex2, NeoXIndex2CompressType,
    NeoXIndex2EncryptType,
};

fn v1_record(hash: u32, offset: u32, csize: u32, usize_: u32, compress: u16, encrypt: u8, large: u8) -> Vec<u8> {
    let mut b = Vec::new();
    b.extend_from_slice(&hash.to_le_bytes());
    b.extend_from_slice(&offset.to_le_bytes());
    b.extend_from_slice(&csize.to_le_bytes());
    b.extend_from_slice(&usize_.to_le_bytes());
    b.extend_from_slice(&0xAAAA_BBBB_CCCC_DDDDu64.to_le_bytes());
    b.extend_from_slice(&compress.to_le_bytes());
    b.push(encrypt);
    b.push(large);
    b
}

fn v1_2_record(hash: u64, offset: u32, csize: u32, usize_: u32, compress: u16, encrypt: u8, large: u8) -> Vec<u8> {
    let mut b = Vec::new();
    b.extend_from_slice(&hash.to_le_bytes());
    b.extend_from_slice(&offset.to_le_bytes());
    b.extend_from_slice(&csize.to_le_bytes());
    b.extend_from_slice(&usize_.to_le_bytes());
    b.extend_from_slice(&7u64.to_le_bytes());
    b.extend_from_slice(&compress.to_le_bytes());
    b.push(encrypt);
    b.push(large);
    b
}

fn v1_32_record(hash: u32, offset: u32, csize: u32, usize_: u32, compress: u32) -> Vec<u8> {
    let mut b = Vec::new();
    b.extend_from_slice(&hash.to_le_bytes());
    b.extend_from_slice(&offset.to_le_bytes());
    b.extend_from_slice(&csize.to_le_bytes());
    b.extend_from_slice(&usize_.to_le_bytes());
    b.extend_from_slice(&1u32.to_le_bytes());
    b.extend_from_slice(&2u32.to_le_bytes());
    b.extend_from_slice(&compress.to_le_bytes());
    b
}

fn v2_record(hash: u64, offset: u32, csize: u32, usize_: u32, compress: u16, encrypt: u8, large: u8) -> Vec<u8> {
    let mut b = Vec::new();
    b.extend_from_slice(&hash.to_le_bytes());
    b.extend_from_slice(&offset.to_le_bytes());
    b.extend_from_slice(&csize.to_le_bytes());
    b.extend_from_slice(&usize_.to_le_bytes());
    b.extend_from_slice(&3u32.to_le_bytes());
    b.extend_from_slice(&9u64.to_le_bytes());
    b.extend_from_slice(&[0xFF, 0x80, 0x01, 0x00]);
    b.extend_from_slice(&compress.to_le_bytes());
    b.push(encrypt);
    b.push(large);
    b
}

#[test]
fn decodes_version1_entry() {
    let mut b = v1_record(0xDEADBEEF, 0x1234, 100, 200, 2, 0, 3);
    assert_eq!(b.len(), 0x1C);
    let ix = NeoXIndex1::from_slice(&mut b).unwrap();
    assert_eq!(ix.name_hash, 0xDEADBEEF);
    assert_eq!(ix.offset, 0x1234);
    assert_eq!(ix.compressed_size, 100);
    assert_eq!(ix.uncompressed_size, 200);
    assert_eq!(ix.compression_type, NeoXIndex2CompressType::LZ4);
    assert_eq!(ix.encrypt_type, NeoXIndex2EncryptType::Unencrypted);
    assert_eq!(ix.large_file_offset, 3);
}

#[test]
fn version1_codes_map_to_types() {
    let mut b = v1_record(1, 0, 0, 0, 1, 1, 0);
    let ix = NeoXIndex1::from_slice(&mut b).unwrap();
    assert_eq!(ix.compression_type, NeoXIndex2CompressType::ZLib);
    assert_eq!(ix.encrypt_type, NeoXIndex2EncryptType::Simple);
    let mut b = v1_record(1, 0, 0, 0, 0, 2, 0);
    let ix = NeoXIndex1::from_slice(&mut b).unwrap();
    assert_eq!(ix.compression_type, NeoXIndex2CompressType::Uncompressed);
    assert_eq!(ix.encrypt_type, NeoXIndex2EncryptType::RC4);
}

#[test]
fn version1_short_record_is_io_error() {
    let mut b = v1_record(1, 2, 3, 4, 0, 0, 0);
    b.pop();
    assert!(matches!(NeoXIndex1::from_slice(&mut b), Err(NeoXIndexError::IoError(_))));
    let mut empty: Vec<u8> = Vec::new();
    assert!(matches!(NeoXIndex1::from_slice(&mut empty), Err(NeoXIndexError::IoError(_))));
}

#[test]
fn version1_unknown_codes_are_refused() {
    let mut b = v1_record(1, 2, 3, 4, 3, 0, 0);
    assert!(matches!(NeoXIndex1::from_slice(&mut b), Err(NeoXIndexError::UnkownCompressType)));
    let mut b = v1_record(1, 2, 3, 4, 0, 3, 0);
    assert!(matches!(NeoXIndex1::from_slice(&mut b), Err(NeoXIndexError::UnknownEncryptType)));
    // the compression code is checked first
    let mut b = v1_record(1, 2, 3, 4, 9, 9, 0);
    assert!(matches!(NeoXIndex1::from_slice(&mut b), Err(NeoXIndexError::UnkownCompressType)));
}

#[test]
fn decodes_version1_2_entry() {
    let mut b = v1_2_record(0x0102030405060708, 77, 5, 6, 1, 0, 1);
    assert_eq!(b.len(), 0x20);
    let ix = NeoXIndex1_2::from_slice(&mut b).unwrap();
    assert_eq!(ix.name_hash, 0x0102030405060708);
    assert_eq!(ix.offset, 77);
    assert_eq!(ix.compressed_size, 5);
    assert_eq!(ix.uncompressed_size, 6);
    assert_eq!(ix.compression_type, NeoXIndex2CompressType::ZLib);
    assert_eq!(ix.large_file_offset, 1);
    let mut short = b[..31].to_vec();
    assert!(matches!(NeoXIndex1_2::from_slice(&mut short), Err(NeoXIndexError::IoError(_))));
}

#[test]
fn decodes_version1_32_entry() {
    let mut b = v1_32_record(0x4176DE2A, 500, 10, 20, 2);
    assert_eq!(b.len(), 0x1C);
    let ix = NeoXIndex1_32::from_slice(&mut b).unwrap();
    assert_eq!(ix.name_hash, 0x4176DE2A);
    assert_eq!(ix.offset, 500);
    assert_eq!(ix.compression_type, NeoXIndex2CompressType::LZ4);
    assert_eq!(ix.encrypt_type, NeoXIndex2EncryptType::Unencrypted);
    assert_eq!(ix.large_file_offset, 0);
}

#[test]
fn version1_32_masked_offset_is_unmasked() {
    // code 63 = 62 + 1 (zlib): the offset is stored xor-ed with (usize + 99) ^ 0x85F6F276
    let uncompressed = 1000u32;
    let real_offset = 0x0010_0000u32;
    let stored = real_offset ^ ((uncompressed + 99) ^ 0x85F6F276);
    let mut b = v1_32_record(5, stored, 10, uncompressed, 63);
    let ix = NeoXIndex1_32::from_slice(&mut b).unwrap();
    assert_eq!(ix.offset, real_offset);
    assert_eq!(ix.compression_type, NeoXIndex2CompressType::ZLib);
    let mut b = v1_32_record(5, stored, 10, uncompressed, 65);
    assert!(matches!(NeoXIndex1_32::from_slice(&mut b), Err(NeoXIndexError::UnkownCompressType)));
    assert!(NeoXIndex1_32::has_decodable_mask(&v1_32_record(5, 0, 0, u32::MAX, 62)) == false);
    assert!(NeoXIndex1_32::has_decodable_mask(&v1_32_record(5, 0, 0, u32::MAX, 61)));
}

#[test]
fn decodes_version2_entry() {
    let mut b = v2_record(0xE581738CE3FD567E, 0xABCDEF, 9, 10, 0, 0, 0x12);
    assert_eq!(b.len(), 0x28);
    let ix = NeoXIndex2::from_slice(&mut b).unwrap();
    assert_eq!(ix.name_hash(), 0xE581738CE3FD567E);
    assert_eq!(ix.offset, 0xABCDEF);
    assert_eq!(ix.compressed_size, 9);
    assert_eq!(ix.uncompressed_size, 10);
    assert_eq!(ix.compression_type, NeoXIndex2CompressType::Uncompressed);
    assert_eq!(ix.large_file_offset, 0x12);
    let mut b = v2_record(1, 2, 3, 4, 2, 7, 0);
    assert!(matches!(NeoXIndex2::from_slice(&mut b), Err(NeoXIndexError::UnknownEncryptType)));
    let mut short = v2_record(1, 2, 3, 4, 0, 0, 0);
    short.truncate(39);
    assert!(matches!(NeoXIndex2::from_slice(&mut short), Err(NeoXIndexError::IoError(_))));
}

#[test]
fn entry_getters_read_the_variant() {
    let mut b = v2_record(42, 0x0001_0000, 300, 400, 1, 0, 0x05);
    let ix = NeoXIndex::Version2(NeoXIndex2::from_slice(&mut b).unwrap());
    assert_eq!(ix.name_hash(), 42);
    assert_eq!(ix.offset(), 0x0001_0000 | (0x05u64 << 20));
    assert_eq!(ix.offset(), 0x0051_0000);
    assert_eq!(ix.compressed_size(), 300);
    assert_eq!(ix.compress_type(), NeoXIndex2CompressType::ZLib);
    assert_eq!(ix.encrypt_type(), NeoXIndex2EncryptType::Unencrypted);
    let mut b = v1_record(7, 0xFFFF_FFFF, 1, 2, 0, 1, 0xFF);
    let ix = NeoXIndex::Version1(NeoXIndex1::from_slice(&mut b).unwrap());
    assert_eq!(ix.offset(), 0xFFFF_FFFF | (0xFFu64 << 20));
    assert_eq!(ix.encrypt_type(), NeoXIndex2EncryptType::Simple);
}

#[test]
fn offset_places_high_byte_at_bit_20() {
    let mut b = v1_2_record(1, 0x10, 0, 0, 0, 0, 1);
    let ix = NeoXIndex::Version1_2(NeoXIndex1_2::from_slice(&mut b).unwrap());
    assert_eq!(ix.offset(), 0x10_0010);
    let mut b = v1_32_record(1, 0x20, 0, 0, 0);
    let ix = NeoXIndex::Version1_32(NeoXIndex1_32::from_slice(&mut b).unwrap());
    assert_eq!(ix.offset(), 0x20);
}

#[test]
fn uncompressed_content_is_returned_unchanged() {
    let mut b = v1_record(1, 0, 4, 4, 0, 0, 0);
    let ix = NeoXIndex::Version1(NeoXIndex1::from_slice(&mut b).unwrap());
    let out = ix.decode_content(vec![1, 2, 3, 4]).unwrap();
    assert_eq!(out, vec![1, 2, 3, 4]);
}

fn adler32(data: &[u8]) -> u32 {
    let (mut a, mut b) = (1u32, 0u32);
    for &x in data {
        a = (a + x as u32) % 65521;
        b = (b + a) % 65521;
    }
    (b << 16) | a
}

fn zlib_stored(data: &[u8]) -> Vec<u8> {
    let mut out = vec![0x78, 0x01, 0x01];
    let len = data.len() as u16;
    out.extend_from_slice(&len.to_le_bytes());
    out.extend_from_slice(&(!len).to_le_bytes());
    out.extend_from_slice(data);
    out.extend_from_slice(&adler32(data).to_be_bytes());
    out
}

#[test]
fn zlib_content_is_inflated() {
    let mut b = v1_record(1, 0, 0, 0, 1, 0, 0);
    let ix = NeoXIndex::Version1(NeoXIndex1::from_slice(&mut b).unwrap());
    let out = ix.decode_content(zlib_stored(b"hello npk")).unwrap();
    assert_eq!(out, b"hello npk".to_vec());
    assert!(matches!(ix.decode_content(vec![1, 2, 3]), Err(NeoXIndexError::DecompressFailedZLib)));
}

#[test]
fn lz4_content_is_decoded() {
    let data = b"abcabcabcabcabcabcabcabc0123456789".to_vec();
    let mut block = Vec::new();
    compress::lz4::encode_block(&data, &mut block);
    let mut b = v1_record(1, 0, 0, 0, 2, 0, 0);
    let ix = NeoXIndex::Version1(NeoXIndex1::from_slice(&mut b).unwrap());
    assert_eq!(ix.decode_content(block).unwrap(), data);
    assert!(matches!(ix.decode_content(Vec::new()), Err(NeoXIndexError::DecompressFailedLZ4)));
}

#[test]
fn errors_convert_into_archive_errors() {
    let e: Npk2Error = NeoXIndexError::UnknownEncryptType.into();
    assert!(matches!(e, Npk2Error::IndexError(NeoXIndexError::UnknownEncryptType)));
    let io = std::io::Error::new(std::io::ErrorKind::UnexpectedEof, "eof");
    let e: Npk2Error = io.into();
    assert!(matches!(e, Npk2Error::IoError(_)));
}
