use npktool::error::{NeoXIndexError, Npk2Error};
use npktool::header::{NpkHeader, NpkVersion};
use npktool::index::NeoXIndex;

fn header_bytes(magic: u32, count: u32, large: u32, var2: u32, var3: u32, index_offset: u32) -> Vec<u8> {
    let mut b = Vec::new();
    for w in [magic, count, large, var2, var3, index_offset] {
        b.extend_from_slice(&w.to_le_bytes());
    }
    b
}

const MAGIC: u32 = 0x4B50584E;

#[test]
fn magic_is_nxpk() {
    assert_eq!(&MAGIC.to_le_bytes(), b"NXPK");
}

#[test]
fn detects_version2_when_the_largest_table_fits() {
    let b = header_bytes(MAGIC, 2, 0, 0, 0, 100);
    let h = NpkHeader::parse(&b, 100 + 2 * 0x28).unwrap();
    assert_eq!(h.version, NpkVersion::Version2);
    assert_eq!(h.file_count, 2);
    assert_eq!(h.index_offset(), 100);
    assert_eq!(h.size_of_index_entry(), 0x28);
    assert_eq!(h.index_buffer_size(), 0x50);
}

#[test]
fn detects_the_smaller_layouts() {
    let b = header_bytes(MAGIC, 2, 0, 0, 0, 100);
    let h = NpkHeader::parse(&b, 100 + 2 * 0x20).unwrap();
    assert_eq!(h.version, NpkVersion::Version1_2);
    assert_eq!(h.size_of_index_entry(), 0x20);
    let h = NpkHeader::parse(&b, 100 + 2 * 0x1C).unwrap();
    assert_eq!(h.version, NpkVersion::Version1);
    assert_eq!(h.size_of_index_entry(), 0x1C);
    let b = header_bytes(MAGIC, 2, 0, 0, 2, 100);
    let h = NpkHeader::parse(&b, 100 + 2 * 0x1C).unwrap();
    assert_eq!(h.version, NpkVersion::Version1_32);
    assert_eq!(h.index_buffer_size(), 0x38);
}

#[test]
fn unsupported_header_is_recognised() {
    let b = header_bytes(MAGIC, 2, 0, 0, 1, 100);
    assert!(!NpkHeader::is_supported(&b, 100 + 2 * 0x1C));
    assert!(NpkHeader::is_supported(&b, 100 + 2 * 0x20));
    let b = header_bytes(MAGIC, 1, 0xFFFF_FFFF, 0, 0, 0xFFFF_FFFF);
    assert!(!NpkHeader::is_supported(&b, u64::MAX));
    assert!(NpkHeader::is_supported(&b[..10], 0));
}

#[test]
fn index_offset_joins_both_words() {
    let b = header_bytes(MAGIC, 0, 1, 0, 0, 0x20);
    let h = NpkHeader::parse(&b, 0x1_0000_0020).unwrap();
    assert_eq!(h.index_offset(), 0x1_0000_0020);
    assert_eq!(h.version, NpkVersion::Version2);
}

#[test]
fn bad_magic_and_short_headers_are_refused() {
    let b = header_bytes(0x12345678, 0, 0, 0, 0, 0);
    assert!(matches!(NpkHeader::parse(&b, 1000), Err(Npk2Error::InvalidHeader)));
    assert!(matches!(NpkHeader::parse(&b[..3], 3), Err(Npk2Error::IoError(_))));
    assert!(matches!(NpkHeader::parse(&b[..4], 4), Err(Npk2Error::InvalidHeader)));
    let good = header_bytes(MAGIC, 0, 0, 0, 0, 0);
    assert!(matches!(NpkHeader::parse(&good[..23], 23), Err(Npk2Error::IoError(_))));
}

fn v1_record(hash: u32, compress: u16) -> Vec<u8> {
    let mut b = Vec::new();
    b.extend_from_slice(&hash.to_le_bytes());
    b.extend_from_slice(&[0u8; 20]);
    b.extend_from_slice(&compress.to_le_bytes());
    b.extend_from_slice(&[0, 0]);
    b
}

#[test]
fn reads_every_record_of_the_table() {
    let header = NpkHeader::parse(&header_bytes(MAGIC, 3, 0, 0, 0, 24), 24 + 3 * 0x1C).unwrap();
    assert_eq!(header.version, NpkVersion::Version1);
    let mut table = Vec::new();
    for h in [10u32, 20, 30] {
        table.extend_from_slice(&v1_record(h, 0));
    }
    assert_eq!(table.len(), header.index_buffer_size());
    assert!(header.can_read_indices(&table));
    let mut entries = Vec::new();
    header.read_indices(&table, &mut entries).unwrap();
    assert_eq!(entries.len(), 3);
    let hashes: Vec<u64> = entries.iter().map(NeoXIndex::name_hash).collect();
    assert_eq!(hashes, vec![10, 20, 30]);
}

#[test]
fn trailing_partial_record_is_ignored() {
    let header = NpkHeader::parse(&header_bytes(MAGIC, 1, 0, 0, 0, 24), 24 + 0x28).unwrap();
    assert_eq!(header.version, NpkVersion::Version2);
    let mut table = vec![0u8; 0x28];
    table.extend_from_slice(&[1, 2, 3]);
    let mut entries = Vec::new();
    header.read_indices(&table, &mut entries).unwrap();
    assert_eq!(entries.len(), 1);
}

#[test]
fn first_bad_record_stops_the_reading() {
    let header = NpkHeader::parse(&header_bytes(MAGIC, 3, 0, 0, 0, 24), 24 + 3 * 0x1C).unwrap();
    let mut table = Vec::new();
    table.extend_from_slice(&v1_record(1, 0));
    table.extend_from_slice(&v1_record(2, 7));
    table.extend_from_slice(&v1_record(3, 0));
    let mut entries = Vec::new();
    assert!(matches!(
        header.read_indices(&table, &mut entries),
        Err(Npk2Error::IndexError(NeoXIndexError::UnkownCompressType))
    ));
    assert_eq!(entries.len(), 1);
    assert_eq!(entries[0].name_hash(), 1);
}

#[test]
fn masked_record_that_overflows_cannot_be_read() {
    let header = NpkHeader::parse(&header_bytes(MAGIC, 1, 0, 0, 2, 24), 24 + 0x1C).unwrap();
    assert_eq!(header.version, NpkVersion::Version1_32);
    let mut rec = vec![0u8; 0x1C];
    rec[12..16].copy_from_slice(&u32::MAX.to_le_bytes());
    rec[24..28].copy_from_slice(&62u32.to_le_bytes());
    assert!(!header.can_read_indices(&rec));
    rec[24..28].copy_from_slice(&61u32.to_le_bytes());
    assert!(header.can_read_indices(&rec));
}

#[test]
fn entries_are_appended_after_existing_ones() {
    let header = NpkHeader::parse(&header_bytes(MAGIC, 2, 0, 0, 0, 24), 24 + 2 * 0x1C).unwrap();
    let mut table = Vec::new();
    table.extend_from_slice(&v1_record(5, 0));
    table.extend_from_slice(&v1_record(6, 0));
    let mut entries = Vec::new();
    header.read_indices(&table, &mut entries).unwrap();
    header.read_indices(&table, &mut entries).unwrap();
    let hashes: Vec<u64> = entries.iter().map(NeoXIndex::name_hash).collect();
    assert_eq!(hashes, vec![5, 6, 5, 6]);
    header.read_indices(&table, &mut entries).unwrap();
    assert_eq!(entries.len(), 3 * header.file_count as usize);
}
