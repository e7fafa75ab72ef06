//! The file list that maps name hashes to file names.
//!
//! Each line of a file list either reads `<type> <hash> <unknown> <size> <flag> <name>`
//! (six whitespace-separated words, the last running to the end of the line), in
//! which case `<hash>` is the decimal name hash of `<name>`, or it is a path whose
//! name hash is computed with MurmurHash3.
use vstd::prelude::*;
use vstd::utf8::encode_utf8;
use vstd::string::StringSliceAdditionalSpecFns;
use std::collections::HashMap;
use crate::header::NpkVersion;
use crate::wire::lemma_join_words;

verus! {

broadcast use {vstd::string::group_string_axioms, vstd::std_specs::hash::group_hash_axioms};

/// The Unicode `White_Space` characters.
pub open spec fn is_white_space(c: char) -> bool {
    let u = c as u32;
    ||| 0x9 <= u <= 0xD
    ||| u == 0x20
    ||| u == 0x85
    ||| u == 0xA0
    ||| u == 0x1680
    ||| 0x2000 <= u <= 0x200A
    ||| u == 0x2028
    ||| u == 0x2029
    ||| u == 0x202F
    ||| u == 0x205F
    ||| u == 0x3000
}

/// The first position at or after `i` that does not hold white space.
pub open spec fn skip_space(s: Seq<char>, i: int) -> int
    decreases s.len() - i,
{
    if i >= s.len() || !is_white_space(s[i]) {
        i
    } else {
        skip_space(s, i + 1)
    }
}

/// The first position at or after `i` that holds white space (or the end).
pub open spec fn skip_word(s: Seq<char>, i: int) -> int
    decreases s.len() - i,
{
    if i >= s.len() || is_white_space(s[i]) {
        i
    } else {
        skip_word(s, i + 1)
    }
}

/// The first position at or after `i` that holds a line feed (or the end).
pub open spec fn line_end(s: Seq<char>, i: int) -> int
    decreases s.len() - i,
{
    if i >= s.len() || s[i] == '\n' {
        i
    } else {
        line_end(s, i + 1)
    }
}

/// Where the `k`-th word (counted from 0) of `s` starts; the length of `s`
/// where `s` has no such word.
pub open spec fn word_start(s: Seq<char>, k: nat) -> int
    decreases k,
{
    if k == 0 {
        skip_space(s, 0)
    } else {
        skip_space(s, skip_word(s, word_start(s, (k - 1) as nat)))
    }
}

/// Where the `k`-th word of `s` ends.
pub open spec fn word_end(s: Seq<char>, k: nat) -> int {
    skip_word(s, word_start(s, k))
}

/// The hash word and the name of a line of the six-word form: the second word,
/// and everything from the start of the sixth word up to the end of the line
/// (a line feed ends it). `None` for a line of fewer than six words.
pub open spec fn filelist_fields(line: Seq<char>) -> Option<(Seq<char>, Seq<char>)> {
    if word_start(line, 5) < line.len() {
        Some(
            (
                line.subrange(word_start(line, 1), word_end(line, 1)),
                line.subrange(word_start(line, 5), line_end(line, word_start(line, 5))),
            ),
        )
    } else {
        None
    }
}

pub open spec fn is_decimal_digit(c: char) -> bool {
    0x30 <= c as u32 <= 0x39
}

/// The value of the decimal digits `d`, the last one the least significant.
pub open spec fn decimal_value(d: Seq<char>) -> nat
    decreases d.len(),
{
    if d.len() == 0 {
        0
    } else {
        decimal_value(d.drop_last()) * 10 + (d.last() as u32 - 0x30) as nat
    }
}

/// The digits of a decimal number: the text without a leading plus sign.
pub open spec fn unsigned_digits(t: Seq<char>) -> Seq<char> {
    if t.len() > 0 && t[0] == '+' {
        t.drop_first()
    } else {
        t
    }
}

/// The 64-bit unsigned number that `t` writes: an optional plus sign and at
/// least one decimal digit, of a value that fits in 64 bits.
pub open spec fn decimal_u64(t: Seq<char>) -> Option<u64> {
    let d = unsigned_digits(t);
    if d.len() > 0 && (forall|i: int| 0 <= i < d.len() ==> is_decimal_digit(#[trigger] d[i]))
        && decimal_value(d) <= u64::MAX {
        Some(decimal_value(d) as u64)
    } else {
        None
    }
}

/// The 32-bit MurmurHash3 (`murmur3::murmur3_32`) of `bytes` with seed `seed`.
pub uninterp spec fn murmur3_32_of(bytes: Seq<u8>, seed: u32) -> u32;

/// The seed of the hash that forms a path's whole 32-bit name hash, and the
/// upper half of a 64-bit one.
pub const PATH_HASH_SEED: u32 = 0x9747B28C;

/// The seed of the hash that forms the lower half of a path's 64-bit name hash.
pub const PATH_HASH_SEED_LOW: u32 = 0xC82B7479;

/// The bytes with every `/` turned into `\`.
pub open spec fn backslashed(b: Seq<u8>) -> Seq<u8> {
    Seq::new(b.len(), |i: int| if b[i] == 0x2F { 0x5Cu8 } else { b[i] })
}

/// Whether an archive version names its files by 32-bit hashes.
pub open spec fn uses_short_hashes(version: NpkVersion) -> bool {
    version == NpkVersion::Version1 || version == NpkVersion::Version1_32
}

/// The name hash of a path: MurmurHash3 of its UTF-8 bytes with `/` turned into
/// `\`; for the 64-bit hashes of the later versions a second hash with another
/// seed forms the lower half.
pub open spec fn path_name_hash(line: Seq<char>, version: NpkVersion) -> u64 {
    let bytes = backslashed(encode_utf8(line));
    if uses_short_hashes(version) {
        murmur3_32_of(bytes, PATH_HASH_SEED) as u64
    } else {
        (murmur3_32_of(bytes, PATH_HASH_SEED) as int * 0x1_0000_0000 + murmur3_32_of(
            bytes,
            PATH_HASH_SEED_LOW,
        ) as int) as u64
    }
}

/// The name hash and the file name that a line of a file list gives.
pub open spec fn line_entry(line: Seq<char>, version: NpkVersion) -> (u64, Seq<char>) {
    match filelist_fields(line) {
        Some((hash, name)) => (decimal_u64(hash).unwrap(), name),
        None => (path_name_hash(line, version), line),
    }
}

/// A line that can be read: in the six-word form its hash word is a decimal
/// number that fits in 64 bits; otherwise its UTF-8 form is shorter than 4 GiB.
pub open spec fn line_loadable(line: Seq<char>) -> bool {
    match filelist_fields(line) {
        Some((hash, _)) => decimal_u64(hash) is Some,
        None => encode_utf8(line).len() <= u32::MAX,
    }
}

/// The map from name hashes to file names that the lines give, read in order:
/// a later line for the same hash replaces an earlier one.
pub open spec fn filelist_map(lines: Seq<Seq<char>>, version: NpkVersion) -> Map<u64, Seq<char>>
    decreases lines.len(),
{
    if lines.len() == 0 {
        Map::empty()
    } else {
        let (k, v) = line_entry(lines.last(), version);
        filelist_map(lines.drop_last(), version).insert(k, v)
    }
}

/// The text of each line.
pub open spec fn line_texts(lines: Seq<String>) -> Seq<Seq<char>> {
    lines.map_values(|l: String| l@)
}

/// Whether a map of names holds exactly the names that `expected` gives.
pub open spec fn names_match(m: Map<u64, String>, expected: Map<u64, Seq<char>>) -> bool {
    &&& m.dom() == expected.dom()
    &&& forall|k: u64| #[trigger] m.contains_key(k) ==> m[k]@ == expected[k]
}

fn is_white_space_char(c: char) -> (r: bool)
    ensures
        r == is_white_space(c),
{
    let u = c as u32;
    (0x9 <= u && u <= 0xD) || u == 0x20 || u == 0x85 || u == 0xA0 || u == 0x1680 || (0x2000 <= u
        && u <= 0x200A) || u == 0x2028 || u == 0x2029 || u == 0x202F || u == 0x205F || u == 0x3000
}

fn line_chars(line: &str) -> (v: Vec<char>)
    ensures
        v@ == line@,
{
    let mut v: Vec<char> = Vec::new();
    for c in it: line.chars()
        invariant
            it.seq() == line@,
            v@ == it.seq().take(it.index()),
    {
        v.push(c);
    }
    v
}

fn skip_space_at(s: &Vec<char>, i: usize) -> (r: usize)
    requires
        i <= s@.len(),
    ensures
        i <= r <= s@.len(),
        r == skip_space(s@, i as int),
{
    let mut j = i;
    while j < s.len() && is_white_space_char(s[j])
        invariant
            i <= j <= s@.len(),
            skip_space(s@, i as int) == skip_space(s@, j as int),
        decreases s@.len() - j,
    {
        j = j + 1;
    }
    j
}

fn skip_word_at(s: &Vec<char>, i: usize) -> (r: usize)
    requires
        i <= s@.len(),
    ensures
        i <= r <= s@.len(),
        r == skip_word(s@, i as int),
{
    let mut j = i;
    while j < s.len() && !is_white_space_char(s[j])
        invariant
            i <= j <= s@.len(),
            skip_word(s@, i as int) == skip_word(s@, j as int),
        decreases s@.len() - j,
    {
        j = j + 1;
    }
    j
}

fn line_end_at(s: &Vec<char>, i: usize) -> (r: usize)
    requires
        i <= s@.len(),
    ensures
        i <= r <= s@.len(),
        r == line_end(s@, i as int),
{
    let mut j = i;
    while j < s.len() && s[j] != '\n'
        invariant
            i <= j <= s@.len(),
            line_end(s@, i as int) == line_end(s@, j as int),
        decreases s@.len() - j,
    {
        j = j + 1;
    }
    j
}

/// The bounds of the hash word and of the name of a six-word line.
fn field_bounds(s: &Vec<char>) -> (r: Option<(usize, usize, usize, usize)>)
    ensures
        r is Some <==> word_start(s@, 5) < s@.len(),
        r matches Some((hs, he, ns, ne)) ==> {
            &&& hs == word_start(s@, 1)
            &&& he == word_end(s@, 1)
            &&& ns == word_start(s@, 5)
            &&& ne == line_end(s@, word_start(s@, 5))
            &&& hs <= he <= s@.len()
            &&& ns <= ne <= s@.len()
        },
{
    let mut cur = skip_space_at(s, 0);
    let mut hs: usize = 0;
    let mut he: usize = 0;
    let mut k: usize = 0;
    while k < 5
        invariant
            k <= 5,
            cur <= s@.len(),
            cur == word_start(s@, k as nat),
            k > 1 ==> hs == word_start(s@, 1) && he == word_end(s@, 1) && hs <= he <= s@.len(),
        decreases 5 - k,
    {
        let end = skip_word_at(s, cur);
        if k == 1 {
            hs = cur;
            he = end;
        }
        cur = skip_space_at(s, end);
        k = k + 1;
    }
    if cur < s.len() {
        let ne = line_end_at(s, cur);
        Some((hs, he, cur, ne))
    } else {
        None
    }
}

proof fn lemma_decimal_prefix_bound(d: Seq<char>, k: int)
    requires
        0 <= k <= d.len(),
        forall|i: int| 0 <= i < d.len() ==> is_decimal_digit(#[trigger] d[i]),
    ensures
        decimal_value(d.take(k)) <= decimal_value(d),
    decreases d.len(),
{
    if k < d.len() {
        assert(d.drop_last().take(k) =~= d.take(k));
        lemma_decimal_prefix_bound(d.drop_last(), k);
    } else {
        assert(d.take(k) =~= d);
    }
}

/// Reads the decimal number written by `s[start..end]` (see `decimal_u64`).
fn parse_decimal_u64(s: &Vec<char>, start: usize, end: usize) -> (r: Option<u64>)
    requires
        start <= end <= s@.len(),
    ensures
        r == decimal_u64(s@.subrange(start as int, end as int)),
{
    let ghost t = s@.subrange(start as int, end as int);
    let mut first = start;
    if first < end && s[first] == '+' {
        first = first + 1;
    }
    let ghost d = s@.subrange(first as int, end as int);
    assert(d == unsigned_digits(t)) by {
        if t.len() > 0 && t[0] == '+' {
            assert(d =~= t.drop_first());
        } else {
            assert(d =~= t);
        }
    }
    if first == end {
        return None;
    }
    let mut value: u64 = 0;
    let mut i = first;
    while i < end
        invariant
            start <= first <= i <= end <= s@.len(),
            t == s@.subrange(start as int, end as int),
            d == s@.subrange(first as int, end as int),
            d == unsigned_digits(t),
            d.len() > 0,
            forall|j: int| 0 <= j < i - first ==> is_decimal_digit(#[trigger] d[j]),
            value == decimal_value(d.take(i - first)),
        decreases end - i,
    {
        let c = s[i];
        if !(0x30 <= c as u32 && c as u32 <= 0x39) {
            assert(d[i - first] == c);
            assert(!is_decimal_digit(d[i - first]));
            return None;
        }
        assert(d.take(i - first + 1).drop_last() =~= d.take(i - first));
        assert(d.take(i - first + 1).last() == c);
        let digit = (c as u32 - 0x30) as u64;
        assert(decimal_value(d.take(i - first + 1)) == value * 10 + digit);
        let next = match value.checked_mul(10) {
            Some(v) => v.checked_add(digit),
            None => None,
        };
        match next {
            Some(v) => {
                value = v;
            },
            None => {
                proof {
                    assert(value * 10 + digit > u64::MAX);
                    if forall|j: int| 0 <= j < d.len() ==> is_decimal_digit(#[trigger] d[j]) {
                        lemma_decimal_prefix_bound(d, i - first + 1);
                        assert(decimal_value(d) > u64::MAX);
                    }
                    assert(decimal_u64(t) is None);
                }
                return None;
            },
        }
        i = i + 1;
    }
    assert(d.take(d.len() as int) =~= d);
    Some(value)
}

/// `murmur3::murmur3_32` over the bytes of `bytes`. Claims: the hash is a function
/// of the bytes and the seed. The hash counts the bytes it has read in a 32-bit
/// counter, which overflows past 4 GiB: such inputs are excluded. Reading from an
/// in-memory cursor never fails, so the read error is not reached.
#[verifier::external_body]
fn murmur3_32(bytes: &[u8], seed: u32) -> (h: u32)
    requires
        bytes@.len() <= u32::MAX,
    ensures
        h == murmur3_32_of(bytes@, seed),
{
    murmur3::murmur3_32(&mut std::io::Cursor::new(bytes), seed).unwrap()
}

/// The UTF-8 bytes of `line` with every `/` turned into `\`.
fn backslashed_bytes(line: &str) -> (r: Vec<u8>)
    ensures
        r@ == backslashed(encode_utf8(line@)),
{
    let bytes = line.as_bytes();
    let mut out: Vec<u8> = Vec::new();
    let mut i: usize = 0;
    while i < bytes.len()
        invariant
            i <= bytes@.len(),
            bytes@ == encode_utf8(line@),
            out@ == backslashed(bytes@).take(i as int),
        decreases bytes@.len() - i,
    {
        let b = bytes[i];
        out.push(if b == 0x2F { 0x5C } else { b });
        assert(out@ =~= backslashed(bytes@).take(i + 1));
        i = i + 1;
    }
    assert(out@ =~= backslashed(bytes@));
    out
}

/// The name hash of a path (see `path_name_hash`).
pub fn path_hash(line: &str, version: NpkVersion) -> (r: u64)
    requires
        encode_utf8(line@).len() <= u32::MAX,
    ensures
        r == path_name_hash(line@, version),
{
    let bytes = backslashed_bytes(line);
    if version == NpkVersion::Version1 || version == NpkVersion::Version1_32 {
        let hash = murmur3_32(bytes.as_slice(), 0x9747B28C);
        hash as u64
    } else {
        let top = murmur3_32(bytes.as_slice(), 0x9747B28C);
        let bottom = murmur3_32(bytes.as_slice(), 0xC82B7479);
        proof { lemma_join_words(bottom, top); }
        bottom as u64 | ((top as u64) << 0x20)
    }
}

/// The name hash and the file name that one line of a file list gives.
pub fn file_list_entry(line: &str, version: NpkVersion) -> (r: (u64, String))
    requires
        line_loadable(line@),
    ensures
        r.0 == line_entry(line@, version).0,
        r.1@ == line_entry(line@, version).1,
{
    let chars = line_chars(line);
    match field_bounds(&chars) {
        Some((hs, he, ns, ne)) => {
            let name_hash = parse_decimal_u64(&chars, hs, he).unwrap();
            let name = line.substring_char(ns, ne).to_owned();
            (name_hash, name)
        },
        None => (path_hash(line, version), line.to_owned()),
    }
}

/// Whether a line of a file list can be read (see `line_loadable`).
pub fn is_loadable_line(line: &str) -> (r: bool)
    ensures
        r == line_loadable(line@),
{
    let chars = line_chars(line);
    match field_bounds(&chars) {
        Some((hs, he, ns, ne)) => {
            let parsed = parse_decimal_u64(&chars, hs, he);
            assert(filelist_fields(line@) == Some((chars@.subrange(hs as int, he as int), chars@.subrange(ns as int, ne as int))));
            parsed.is_some()
        },
        None => {
            line.as_bytes().len() <= 0xFFFF_FFFF
        },
    }
}

/// Builds the map from name hashes to file names that the lines of a file list
/// give, in order: a later line for the same hash replaces an earlier one.
pub fn load_file_name_hash_mappings(lines: &Vec<String>, version: NpkVersion) -> (m: HashMap<u64, String>)
    requires
        forall|i: int| 0 <= i < lines@.len() ==> line_loadable(#[trigger] lines@[i]@),
    ensures
        names_match(m@, filelist_map(line_texts(lines@), version)),
{
    let mut file_mappings: HashMap<u64, String> = HashMap::new();
    let mut i: usize = 0;
    while i < lines.len()
        invariant
            i <= lines@.len(),
            forall|j: int| 0 <= j < lines@.len() ==> line_loadable(#[trigger] lines@[j]@),
            names_match(file_mappings@, filelist_map(line_texts(lines@).take(i as int), version)),
        decreases lines@.len() - i,
    {
        let (name_hash, name) = file_list_entry(lines[i].as_str(), version);
        file_mappings.insert(name_hash, name);
        proof {
            let texts = line_texts(lines@);
            assert(texts.take(i + 1).drop_last() =~= texts.take(i as int));
            assert(texts.take(i + 1).last() == lines@[i as int]@);
        }
        i = i + 1;
    }
    assert(line_texts(lines@).take(lines@.len() as int) =~= line_texts(lines@));
    file_mappings
}

/// A name hash is in the map of a file list exactly when some line gives it, and
/// it maps to the name given by the last such line.
pub proof fn lemma_last_line_wins(lines: Seq<Seq<char>>, version: NpkVersion, k: u64)
    ensures
        filelist_map(lines, version).contains_key(k) <==> exists|i: int|
            0 <= i < lines.len() && (#[trigger] line_entry(lines[i], version)).0 == k,
        filelist_map(lines, version).contains_key(k) ==> exists|i: int|
            {
                &&& 0 <= i < lines.len()
                &&& #[trigger] line_entry(lines[i], version) == (k, filelist_map(lines, version)[k])
                &&& forall|j: int| i < j < lines.len() ==> line_entry(lines[j], version).0 != k
            },
    decreases lines.len(),
{
    if lines.len() > 0 {
        let init = lines.drop_last();
        lemma_last_line_wins(init, version, k);
        let last = lines.len() - 1;
        assert(lines[last] == lines.last());
        assert forall|i: int| 0 <= i < init.len() implies init[i] == lines[i] by {}
        if line_entry(lines.last(), version).0 == k {
            assert(line_entry(lines[last], version) == (k, filelist_map(lines, version)[k]));
        } else {
            if filelist_map(lines, version).contains_key(k) {
                let i = choose|i: int|
                    {
                        &&& 0 <= i < init.len()
                        &&& #[trigger] line_entry(init[i], version) == (k, filelist_map(init, version)[k])
                        &&& forall|j: int| i < j < init.len() ==> line_entry(init[j], version).0 != k
                    };
                assert(line_entry(lines[i], version) == (k, filelist_map(lines, version)[k]));
            }
            if exists|i: int| 0 <= i < lines.len() && (#[trigger] line_entry(lines[i], version)).0 == k {
                let i = choose|i: int| 0 <= i < lines.len() && (#[trigger] line_entry(lines[i], version)).0 == k;
                assert(line_entry(init[i], version).0 == k);
            }
        }
    }
}

/// Archive versions with 32-bit name hashes hash paths into 32 bits.
pub proof fn lemma_short_path_hashes(line: Seq<char>, version: NpkVersion)
    requires
        uses_short_hashes(version),
    ensures
        path_name_hash(line, version) < 0x1_0000_0000,
{
}

/// The upper half of a path's 64-bit name hash is its 32-bit name hash.
pub proof fn lemma_long_hash_extends_short(line: Seq<char>)
    ensures
        path_name_hash(line, NpkVersion::Version2) / 0x1_0000_0000 == path_name_hash(
            line,
            NpkVersion::Version1,
        ),
        path_name_hash(line, NpkVersion::Version1_2) == path_name_hash(line, NpkVersion::Version2),
{
    let bytes = backslashed(encode_utf8(line));
    let hi = murmur3_32_of(bytes, PATH_HASH_SEED) as int;
    let lo = murmur3_32_of(bytes, PATH_HASH_SEED_LOW) as int;
    assert((hi * 0x1_0000_0000 + lo) / 0x1_0000_0000 == hi) by (nonlinear_arith)
        requires
            0 <= lo < 0x1_0000_0000,
    ;
    assert(hi * 0x1_0000_0000 + lo <= u64::MAX) by (nonlinear_arith)
        requires
            0 <= lo < 0x1_0000_0000,
            0 <= hi < 0x1_0000_0000,
    ;
}

/// The map a file list gives depends on the archive version only through the
/// width of its name hashes: versions 1 and 1.32 (32-bit hashes) give the same
/// map, as do versions 1.2 and 2 (64-bit hashes); and where every line is in the
/// six-word form, which names its hash outright, all versions give the same map.
pub proof fn lemma_map_follows_hash_width(lines: Seq<Seq<char>>, v: NpkVersion, w: NpkVersion)
    requires
        uses_short_hashes(v) == uses_short_hashes(w) || forall|i: int|
            0 <= i < lines.len() ==> #[trigger] filelist_fields(lines[i]) is Some,
    ensures
        filelist_map(lines, v) == filelist_map(lines, w),
    decreases lines.len(),
{
    if lines.len() > 0 {
        let init = lines.drop_last();
        assert forall|i: int| 0 <= i < init.len() implies init[i] == lines[i] by {}
        if !(uses_short_hashes(v) == uses_short_hashes(w)) {
            assert forall|i: int| 0 <= i < init.len() implies #[trigger] filelist_fields(init[i]) is Some by {
                assert(filelist_fields(lines[i]) is Some);
            }
            assert(filelist_fields(lines[lines.len() - 1]) is Some);
        }
        lemma_map_follows_hash_width(init, v, w);
        assert(line_entry(lines.last(), v) == line_entry(lines.last(), w));
    }
}

} // verus!
