//! Where an unpacked entry is written: the name that a file list gives, or a
//! name made from its name hash and the kind of its content.
use vstd::prelude::*;
use vstd::string::{StrSliceExecFns, StringExecFns};
use std::collections::HashMap;
use crate::index::NeoXIndex;
use crate::wire::{le_field, read_u32_le};

verus! {

broadcast use {vstd::string::group_string_axioms, vstd::std_specs::hash::group_hash_axioms};

/// The name hashes under which archives store their file list.
pub open spec fn is_filelist_hash(name_hash: u64) -> bool {
    name_hash == 0xD4A17339F75381FD || name_hash == 0xE581738CE3FD567E || name_hash == 0x4176DE2A
}

/// Whether `name_hash` is one under which archives store their file list.
pub fn is_filelist_name_hash(name_hash: u64) -> (r: bool)
    ensures
        r == is_filelist_hash(name_hash),
{
    name_hash == 0xD4A17339F75381FD || name_hash == 0xE581738CE3FD567E || name_hash == 0x4176DE2A
}

/// The position of the first entry that holds a file list.
pub fn find_filelist_index(indices: &Vec<NeoXIndex>) -> (r: Option<usize>)
    ensures
        r matches Some(i) ==> i < indices@.len() && is_filelist_hash(indices@[i as int].spec_name_hash()),
        r matches Some(i) ==> forall|j: int| 0 <= j < i ==> !is_filelist_hash(#[trigger] indices@[j].spec_name_hash()),
        r is None ==> forall|j: int| 0 <= j < indices@.len() ==> !is_filelist_hash(#[trigger] indices@[j].spec_name_hash()),
{
    let mut i: usize = 0;
    while i < indices.len()
        invariant
            i <= indices@.len(),
            forall|j: int| 0 <= j < i ==> !is_filelist_hash(#[trigger] indices@[j].spec_name_hash()),
        decreases indices@.len() - i,
    {
        if is_filelist_name_hash(indices[i].name_hash()) {
            return Some(i);
        }
        i = i + 1;
    }
    None
}

/// The hexadecimal digits, upper case.
pub open spec fn hex_digits() -> Seq<char> {
    "0123456789ABCDEF"@
}

/// `n` written in upper-case hexadecimal, without leading zeros.
pub open spec fn hex_upper(n: nat) -> Seq<char>
    decreases n,
{
    if n < 16 {
        seq![hex_digits()[n as int]]
    } else {
        hex_upper(n / 16) + seq![hex_digits()[(n % 16) as int]]
    }
}

/// The value of a hexadecimal digit, `0`-`9` then `A`-`F`.
pub open spec fn hex_digit_value(c: char) -> int {
    if '0' <= c <= '9' {
        c as int - '0' as int
    } else {
        c as int - 'A' as int + 10
    }
}

/// The number that upper-case hexadecimal digits write, most significant first.
pub open spec fn hex_number(d: Seq<char>) -> int
    decreases d.len(),
{
    if d.len() == 0 {
        0
    } else {
        16 * hex_number(d.drop_last()) + hex_digit_value(d.last())
    }
}

proof fn lemma_hex_digit_value(k: int)
    requires
        0 <= k < 16,
    ensures
        hex_digits().len() == 16,
        hex_digit_value(hex_digits()[k]) == k,
        '0' <= hex_digits()[k] <= '9' || 'A' <= hex_digits()[k] <= 'F',
        hex_digits()[k] == '0' ==> k == 0,
{
    reveal_strlit("0123456789ABCDEF");
    assert(hex_digits() =~= seq!['0', '1', '2', '3', '4', '5', '6', '7', '8', '9', 'A', 'B', 'C', 'D', 'E', 'F']);
}

/// Writing `n` in hexadecimal loses nothing: the digits read back as `n`; each
/// is one of `0`-`9`, `A`-`F`; and only zero starts with the digit `0`.
pub proof fn lemma_hex_upper_reads_back(n: nat)
    ensures
        hex_number(hex_upper(n)) == n,
        hex_upper(n).len() >= 1,
        forall|i: int|
            0 <= i < hex_upper(n).len() ==> ('0' <= #[trigger] hex_upper(n)[i] <= '9' || 'A'
                <= hex_upper(n)[i] <= 'F'),
        hex_upper(n)[0] == '0' ==> n == 0,
    decreases n,
{
    lemma_hex_digit_value((n % 16) as int);
    if n >= 16 {
        lemma_hex_upper_reads_back(n / 16);
        let h = hex_upper(n / 16);
        let d = seq![hex_digits()[(n % 16) as int]];
        assert((h + d).drop_last() =~= h);
        assert((h + d).last() == hex_digits()[(n % 16) as int]);
        assert(hex_number(h + d) == 16 * hex_number(h) + (n % 16) as int);
        assert(hex_upper(n) == h + d);
        assert(n == 16 * (n / 16) + n % 16);
        assert((h + d)[0] == h[0]);
        assert forall|i: int| 0 <= i < (h + d).len() implies ('0' <= #[trigger] (h + d)[i] <= '9' || 'A'
            <= (h + d)[i] <= 'F') by {
            if i < h.len() {
                assert((h + d)[i] == h[i]);
            }
        }
    } else {
        assert(hex_upper(n).drop_last() =~= Seq::<char>::empty());
        assert(hex_number(Seq::<char>::empty()) == 0);
        assert(hex_upper(n).last() == hex_digits()[n as int]);
    }
}

fn hex_digit(d: u64) -> (r: &'static str)
    requires
        d < 16,
    ensures
        r@ == seq![hex_digits()[d as int]],
{
    let digits = "0123456789ABCDEF";
    proof {
        reveal_strlit("0123456789ABCDEF");
    }
    let r = digits.substring_char(d as usize, (d + 1) as usize);
    assert(r@ =~= seq![hex_digits()[d as int]]);
    r
}

/// `n` written in upper-case hexadecimal, without leading zeros.
pub fn hex_upper_string(n: u64) -> (r: String)
    ensures
        r@ == hex_upper(n as nat),
    decreases n,
{
    if n < 16 {
        hex_digit(n).to_owned()
    } else {
        let mut s = hex_upper_string(n / 16);
        s.append(hex_digit(n % 16));
        s
    }
}

/// The file extension of content of type `mime`, or `None` where the type is not
/// one that is recognised. Content of no declared type is told apart by its
/// first word: NeoX scripts (`1D 04` in the low half), KTX textures, and plain data.
pub open spec fn file_extension(mime: Seq<char>, content: Seq<u8>) -> Option<Seq<char>> {
    if mime == "text/plain"@ {
        Some("txt"@)
    } else if mime == "application/octet-stream"@ {
        Some(data_extension(content))
    } else if mime == "application/x-executable"@ {
        Some("exe"@)
    } else if mime == "application/x-cpio"@ {
        Some("cpio"@)
    } else if mime == "image/ktx"@ {
        Some("ktx"@)
    } else if mime == "image/png"@ {
        Some("png"@)
    } else if mime == "image/x-dds"@ {
        Some("dds"@)
    } else if mime == "image/x-win-bitmap"@ {
        Some("bmp"@)
    } else if mime == "application/xml"@ {
        Some("xml"@)
    } else if mime == "text/x-matlab"@ {
        Some("mat"@)
    } else if mime == "application/x-apple-systemprofiler+xml"@ {
        Some("xml"@)
    } else if mime == "text/x-modelica"@ {
        Some("mo"@)
    } else if mime == "text/x-csrc"@ {
        Some("c"@)
    } else if mime == "font/ttf"@ {
        Some("ttf"@)
    } else if mime == "image/bmp"@ {
        Some("bmp"@)
    } else if mime == "application/zip"@ {
        Some("zip"@)
    } else if mime == "image/jpeg"@ {
        Some("jpg"@)
    } else if mime == "image/vnd.zbrush.pcx"@ {
        Some("pcx"@)
    } else if mime == "audio/mpeg"@ {
        Some("mp3"@)
    } else if mime == "audio/x-wav"@ {
        Some("wav"@)
    } else if mime == "application/x-java-jce-keystore"@ {
        Some(".pem"@)
    } else if mime == "application/x-font-ttf"@ {
        Some(".ttf"@)
    } else {
        None
    }
}

/// The extension of content of no declared type, told by its first
/// little-endian word.
pub open spec fn data_extension(content: Seq<u8>) -> Seq<char> {
    if content.len() < 4 {
        "dat"@
    } else {
        let magic = le_field(content, 0, 4);
        if magic == 0x041D || magic % 0x10000 == 0x041D {
            "nxs"@
        } else if magic == 0x58544BAB {
            "ktx"@
        } else {
            "dat"@
        }
    }
}

/// The name under which an entry that no file list names is written:
/// its name hash in hexadecimal with the extension of its content (`dat` where
/// the type of the content is not recognised), under `unknown_file_name/`.
pub open spec fn unknown_file_name(name_hash: u64, mime: Seq<char>, content: Seq<u8>) -> Seq<char> {
    let ext = match file_extension(mime, content) {
        Some(e) => e,
        None => "dat"@,
    };
    "unknown_file_name/"@ + hex_upper(name_hash as nat) + "."@ + ext
}

fn str_equals(a: &str, b: &str) -> (r: bool)
    ensures
        r == (a@ == b@),
{
    a.to_owned() == b.to_owned()
}

fn data_extension_of(content: &[u8]) -> (r: &'static str)
    ensures
        r@ == data_extension(content@),
{
    let mut cur: &[u8] = content;
    match read_u32_le(&mut cur) {
        Ok(magic) => {
            assert(content@.take(4) == content@.subrange(0, 4));
            assert(magic & 0xFFFF == magic % 0x10000) by (bit_vector);
            if magic == 0x041D {
                "nxs"
            } else if magic & 0xFFFF == 0x041D {
                "nxs"
            } else {
                if magic == 0x58544BAB {
                    "ktx"
                } else {
                    "dat"
                }
            }
        },
        Err(_) => "dat",
    }
}

/// The file extension of content of type `mime` (see `file_extension`).
pub fn extension_for(mime: &str, content: &[u8]) -> (r: Option<&'static str>)
    ensures
        r is Some <==> file_extension(mime@, content@) is Some,
        r matches Some(e) ==> file_extension(mime@, content@) == Some(e@),
{
    if str_equals(mime, "text/plain") {
        Some("txt")
    } else if str_equals(mime, "application/octet-stream") {
        Some(data_extension_of(content))
    } else if str_equals(mime, "application/x-executable") {
        Some("exe")
    } else if str_equals(mime, "application/x-cpio") {
        Some("cpio")
    } else if str_equals(mime, "image/ktx") {
        Some("ktx")
    } else if str_equals(mime, "image/png") {
        Some("png")
    } else if str_equals(mime, "image/x-dds") {
        Some("dds")
    } else if str_equals(mime, "image/x-win-bitmap") {
        Some("bmp")
    } else if str_equals(mime, "application/xml") {
        Some("xml")
    } else if str_equals(mime, "text/x-matlab") {
        Some("mat")
    } else if str_equals(mime, "application/x-apple-systemprofiler+xml") {
        Some("xml")
    } else if str_equals(mime, "text/x-modelica") {
        Some("mo")
    } else if str_equals(mime, "text/x-csrc") {
        Some("c")
    } else if str_equals(mime, "font/ttf") {
        Some("ttf")
    } else if str_equals(mime, "image/bmp") {
        Some("bmp")
    } else if str_equals(mime, "application/zip") {
        Some("zip")
    } else if str_equals(mime, "image/jpeg") {
        Some("jpg")
    } else if str_equals(mime, "image/vnd.zbrush.pcx") {
        Some("pcx")
    } else if str_equals(mime, "audio/mpeg") {
        Some("mp3")
    } else if str_equals(mime, "audio/x-wav") {
        Some("wav")
    } else if str_equals(mime, "application/x-java-jce-keystore") {
        Some(".pem")
    } else if str_equals(mime, "application/x-font-ttf") {
        Some(".ttf")
    } else {
        None
    }
}

/// The name under which an entry that no file list names is written, given
/// the type of its content (see `unknown_file_name`).
pub fn unknown_file_name_for(name_hash: u64, mime: &str, content: &[u8]) -> (r: String)
    ensures
        r@ == unknown_file_name(name_hash, mime@, content@),
{
    let extension = match extension_for(mime, content) {
        Some(e) => e,
        None => "dat",
    };
    let mut name = "unknown_file_name/".to_owned();
    name.append(hex_upper_string(name_hash).as_str());
    name.append(".");
    name.append(extension);
    name
}

/// `tree_magic::from_u8`: the MIME type that the crate detects for the bytes.
/// Nothing is claimed of it: the crate reads the type database installed on the
/// machine, so the answer for the same bytes may differ between machines.
#[verifier::external_body]
fn detect_mime(content: &[u8]) -> String {
    tree_magic::from_u8(content)
}

/// The name under which an entry is written, and the content type that was
/// detected but not recognised, if one was.
pub struct OutputName {
    pub file_name: String,
    pub unhandled_mime: Option<String>,
}

/// Chooses the name under which the entry with `name_hash` and `content` is
/// written: the name that the file list gives it; `filelist.txt` for a file
/// list; else a name made from its hash and the detected type of its content.
pub fn output_file_name(file_list: &HashMap<u64, String>, name_hash: u64, content: &[u8]) -> (r: OutputName)
    ensures
        file_list@.contains_key(name_hash) ==> r.file_name@ == file_list@[name_hash]@
            && r.unhandled_mime is None,
        !file_list@.contains_key(name_hash) && is_filelist_hash(name_hash) ==> r.file_name@
            == "filelist.txt"@ && r.unhandled_mime is None,
        !file_list@.contains_key(name_hash) && !is_filelist_hash(name_hash) ==> exists|mime: Seq<char>|
            {
                &&& #[trigger] unknown_file_name(name_hash, mime, content@) == r.file_name@
                &&& r.unhandled_mime is Some <==> file_extension(mime, content@) is None
                &&& r.unhandled_mime matches Some(m) ==> m@ == mime
            },
{
    match file_list.get(&name_hash) {
        Some(file_name) => OutputName { file_name: file_name.clone(), unhandled_mime: None },
        None => {
            if is_filelist_name_hash(name_hash) {
                OutputName { file_name: "filelist.txt".to_owned(), unhandled_mime: None }
            } else {
                let mime = detect_mime(content);
                let file_name = unknown_file_name_for(name_hash, mime.as_str(), content);
                let unhandled_mime = match extension_for(mime.as_str(), content) {
                    Some(_) => None,
                    None => Some(mime.clone()),
                };
                assert(unknown_file_name(name_hash, mime@, content@) == file_name@);
                OutputName { file_name, unhandled_mime }
            }
        },
    }
}

} // verus!
