use std::collections::HashMap;
use npktool::codec::{filelist_text, is_zlib_stream, lz4_outcome, zlib_outcome};
use npktool::error::NeoXIndexError;
use npktool::naming::{
    extension_for, find_filelist_index, hex_upper_string, is_filelist_name_hash, output_file_name,
    unknown_file_name_for,
};
use npktool::index::{NeoXIndex, NeoXIndex2, NeoXIndex2CompressType, NeoXIndex2EncryptType};

#[test]
fn hex_is_upper_case_without_padding() {
    assert_eq!(hex_upper_string(0), "0");
    assert_eq!(hex_upper_string(0xF), "F");
    assert_eq!(hex_upper_string(0x10), "10");
    assert_eq!(hex_upper_string(0xD4A17339F75381FD), "D4A17339F75381FD");
    assert_eq!(hex_upper_string(u64::MAX), format!("{:X}", u64::MAX));
}

#[test]
fn mime_types_map_to_extensions() {
    assert_eq!(extension_for("text/plain", b""), Some("txt"));
    assert_eq!(extension_for("image/png", b""), Some("png"));
    assert_eq!(extension_for("application/x-java-jce-keystore", b""), Some(".pem"));
    assert_eq!(extension_for("audio/x-wav", b""), Some("wav"));
    assert_eq!(extension_for("application/pdf", b""), None);
}

#[test]
fn plain_data_is_told_by_its_first_word() {
    assert_eq!(extension_for("application/octet-stream", &[0x1D, 0x04, 0, 0]), Some("nxs"));
    assert_eq!(extension_for("application/octet-stream", &[0x1D, 0x04, 7, 9, 1]), Some("nxs"));
    assert_eq!(extension_for("application/octet-stream", &[0xAB, 0x4B, 0x54, 0x58]), Some("ktx"));
    assert_eq!(extension_for("application/octet-stream", &[1, 2, 3, 4]), Some("dat"));
    assert_eq!(extension_for("application/octet-stream", &[0x1D, 0x04]), Some("dat"));
}

#[test]
fn unknown_names_use_hash_and_extension() {
    assert_eq!(unknown_file_name_for(0xABC, "image/png", b""), "unknown_file_name/ABC.png");
    assert_eq!(unknown_file_name_for(1, "weird/type", b""), "unknown_file_name/1.dat");
}

#[test]
fn listed_names_win() {
    let mut list = HashMap::new();
    list.insert(77u64, "a/b.txt".to_string());
    list.insert(0x4176DE2A, "named.txt".to_string());
    let n = output_file_name(&list, 77, b"anything");
    assert_eq!(n.file_name, "a/b.txt");
    assert!(n.unhandled_mime.is_none());
    let n = output_file_name(&list, 0x4176DE2A, b"");
    assert_eq!(n.file_name, "named.txt");
}

#[test]
fn file_list_entries_are_named_filelist() {
    let list = HashMap::new();
    for h in [0xD4A17339F75381FD, 0xE581738CE3FD567E, 0x4176DE2A] {
        assert!(is_filelist_name_hash(h));
        let n = output_file_name(&list, h, b"");
        assert_eq!(n.file_name, "filelist.txt");
    }
    assert!(!is_filelist_name_hash(0x4176DE2B));
}

#[test]
fn unlisted_names_start_with_unknown_directory() {
    let list = HashMap::new();
    let n = output_file_name(&list, 0x1234, b"hello world, plain text\n");
    assert!(n.file_name.starts_with("unknown_file_name/1234."));
}

fn entry(hash: u64) -> NeoXIndex {
    NeoXIndex::Version2(NeoXIndex2 {
        name_hash: hash,
        offset: 0,
        compressed_size: 0,
        uncompressed_size: 0,
        compression_type: NeoXIndex2CompressType::Uncompressed,
        encrypt_type: NeoXIndex2EncryptType::Unencrypted,
        large_file_offset: 0,
    })
}

#[test]
fn finds_first_file_list_entry() {
    let entries = vec![entry(1), entry(0xE581738CE3FD567E), entry(0x4176DE2A)];
    assert_eq!(find_filelist_index(&entries), Some(1));
    assert_eq!(find_filelist_index(&vec![entry(1), entry(2)]), None);
}

#[test]
fn decoder_outcomes() {
    assert!(matches!(lz4_outcome(0, Vec::new()), Err(NeoXIndexError::DecompressFailedLZ4)));
    assert_eq!(lz4_outcome(2, vec![5, 6]).unwrap(), vec![5, 6]);
    assert!(matches!(zlib_outcome(None), Err(NeoXIndexError::DecompressFailedZLib)));
    assert_eq!(zlib_outcome(Some(vec![1])).unwrap(), vec![1]);
}

#[test]
fn file_list_text_is_inflated_when_compressed() {
    assert_eq!(filelist_text(b"a/b\n"), b"a/b\n".to_vec());
    assert!(!is_zlib_stream(b"a/b\n"));
    // zlib stored block holding "hi"
    let z = vec![0x78, 0x01, 0x01, 0x02, 0x00, 0xFD, 0xFF, b'h', b'i', 0x01, 0x3B, 0x00, 0xD2];
    assert!(is_zlib_stream(&z));
    assert_eq!(filelist_text(&z), b"hi".to_vec());
}
