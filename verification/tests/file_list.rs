use npktool::filelist::{file_list_entry, is_loadable_line, load_file_name_hash_mappings, path_hash};
use npktool::header::NpkVersion;
use npktool::lines::file_list_lines;
use std::io::BufRead;

fn murmur(bytes: &[u8], seed: u32) -> u32 {
    murmur3::murmur3_32(&mut std::io::Cursor::new(bytes), seed).unwrap()
}

#[test]
fn six_word_line_gives_its_hash_and_name() {
    let (h, name) = file_list_entry("res 12345 x 99 0 textures/a b.png", NpkVersion::Version2);
    assert_eq!(h, 12345);
    assert_eq!(name, "textures/a b.png");
}

#[test]
fn surrounding_space_and_plus_sign() {
    let (h, name) = file_list_entry("  t\t+18446744073709551615   u  v w  name.txt  ", NpkVersion::Version1);
    assert_eq!(h, u64::MAX);
    assert_eq!(name, "name.txt  ");
}

#[test]
fn unicode_space_separates_words() {
    let (h, name) = file_list_entry("a\u{3000}7\u{a0}c d e f", NpkVersion::Version1);
    assert_eq!(h, 7);
    assert_eq!(name, "f");
}

#[test]
fn path_line_is_hashed_with_backslashes() {
    let line = "script/ui/main.nxs";
    let expected = murmur(b"script\\ui\\main.nxs", 0x9747B28C) as u64;
    let (h, name) = file_list_entry(line, NpkVersion::Version1);
    assert_eq!(h, expected);
    assert_eq!(name, line);
    assert_eq!(path_hash(line, NpkVersion::Version1_32), expected);
}

#[test]
fn long_path_hash_joins_two_seeds() {
    let line = "a/b c";
    let top = murmur(b"a\\b c", 0x9747B28C) as u64;
    let bottom = murmur(b"a\\b c", 0xC82B7479) as u64;
    assert_eq!(path_hash(line, NpkVersion::Version2), (top << 32) | bottom);
    assert_eq!(path_hash(line, NpkVersion::Version1_2), (top << 32) | bottom);
}

#[test]
fn unparsable_hash_word_is_not_loadable() {
    assert!(!is_loadable_line("a 12x c d e f"));
    assert!(!is_loadable_line("a 18446744073709551616 c d e f"));
    assert!(!is_loadable_line("a + c d e f"));
    assert!(is_loadable_line("a 1 c d e f"));
    assert!(is_loadable_line("only five words here ok"));
    assert!(is_loadable_line(""));
}

#[test]
fn later_lines_replace_earlier_ones() {
    let lines = vec![
        "t 1 u 0 0 first".to_string(),
        "t 2 u 0 0 second".to_string(),
        "t 1 u 0 0 third".to_string(),
    ];
    let m = load_file_name_hash_mappings(&lines, NpkVersion::Version2);
    assert_eq!(m.len(), 2);
    assert_eq!(m.get(&1).unwrap(), "third");
    assert_eq!(m.get(&2).unwrap(), "second");
}

#[test]
fn empty_list_gives_empty_map() {
    let m = load_file_name_hash_mappings(&Vec::new(), NpkVersion::Version1);
    assert!(m.is_empty());
}

#[test]
fn mixed_lines() {
    let lines = vec!["x/y.txt".to_string(), "r 5 u 0 0 five".to_string()];
    let m = load_file_name_hash_mappings(&lines, NpkVersion::Version1);
    let h = murmur(b"x\\y.txt", 0x9747B28C) as u64;
    assert_eq!(m.get(&h).unwrap(), "x/y.txt");
    assert_eq!(m.get(&5).unwrap(), "five");
}

#[test]
fn maps_follow_the_hash_width_of_the_version() {
    let lines: Vec<String> = vec!["a/b.txt".to_string(), "res 42 x 1 0 c.png".to_string()];
    let v1 = load_file_name_hash_mappings(&lines, NpkVersion::Version1);
    let v1_32 = load_file_name_hash_mappings(&lines, NpkVersion::Version1_32);
    let v1_2 = load_file_name_hash_mappings(&lines, NpkVersion::Version1_2);
    let v2 = load_file_name_hash_mappings(&lines, NpkVersion::Version2);
    assert_eq!(v1, v1_32);
    assert_eq!(v1_2, v2);
    assert_ne!(v1, v2);
    let six_word: Vec<String> = vec!["res 42 x 1 0 c.png".to_string(), "res 7 x 1 0 d e".to_string()];
    let m1 = load_file_name_hash_mappings(&six_word, NpkVersion::Version1);
    let m2 = load_file_name_hash_mappings(&six_word, NpkVersion::Version2);
    assert_eq!(m1, m2);
    assert_eq!(m1.len(), 2);
}

fn std_lines(text: &[u8]) -> Vec<String> {
    std::io::Cursor::new(text).lines().filter_map(|l| l.ok()).collect()
}

#[test]
fn lines_split_at_line_feeds_and_drop_carriage_returns() {
    let text = b"a\r\nb\n\nc";
    assert_eq!(file_list_lines(text), vec!["a", "b", "", "c"]);
    assert_eq!(file_list_lines(text), std_lines(text));
}

#[test]
fn trailing_line_feed_adds_no_empty_line() {
    assert_eq!(file_list_lines(b"x\n"), vec!["x"]);
    assert!(file_list_lines(b"").is_empty());
    assert_eq!(file_list_lines(b"\n"), vec![""]);
}

#[test]
fn lone_carriage_returns_stay() {
    assert_eq!(file_list_lines(b"a\rb\nend\r"), vec!["a\rb", "end\r"]);
    assert_eq!(file_list_lines(b"a\rb\nend\r"), std_lines(b"a\rb\nend\r"));
}

#[test]
fn lines_that_are_not_utf8_are_left_out() {
    let text = b"\xff\nok\n\xe2\x82\nd\xc3\xa9j\xc3\xa0";
    assert_eq!(file_list_lines(text), vec!["ok", "d\u{e9}j\u{e0}"]);
    assert_eq!(file_list_lines(text), std_lines(text));
}
