//! The archive header, the detection of the archive version, and the index table.
use vstd::prelude::*;
use crate::error::{fault_of, EntryFault, Npk2Error};
use crate::index::{
    mask_overflows, spec_index1, spec_index1_2, spec_index1_32, spec_index2, NeoXIndex,
    NeoXIndex1, NeoXIndex1_2, NeoXIndex1_32, NeoXIndex2,
};
use crate::wire::{le_field, lemma_cursor_field, lemma_join_words, lemma_le_fields, read_u32_le, u32_at};

verus! {

/// The layout version of an archive.
#[derive(Debug, Clone, Copy, PartialEq, Eq, Structural)]
pub enum NpkVersion {
    Version1,
    Version1_2,
    Version1_32,
    Version2,
}

/// The first four bytes of every archive, read as a little-endian integer ("NXPK").
pub const NPK_MAGIC: u32 = 0x4B50584E;

/// How many bytes one index entry takes in an archive of version `v`.
pub open spec fn entry_size(v: NpkVersion) -> nat {
    match v {
        NpkVersion::Version1 => 0x1C,
        NpkVersion::Version1_32 => 0x1C,
        NpkVersion::Version1_2 => 0x20,
        NpkVersion::Version2 => 0x28,
    }
}

/// The version of an archive, told from where its index table starts, how many
/// entries it holds, how large the archive is and its fifth header word: the
/// largest entry layout whose table fits in the file is chosen, and the two
/// 28-byte layouts are told apart by that word (0 or 2). `None` where no
/// layout fits.
pub open spec fn detect_version(full_index_offset: int, file_count: int, file_size: int, var3: int) -> Option<NpkVersion> {
    if full_index_offset + file_count * 0x28 <= file_size {
        Some(NpkVersion::Version2)
    } else if full_index_offset + file_count * 0x20 <= file_size {
        Some(NpkVersion::Version1_2)
    } else if full_index_offset + file_count * 0x1C <= file_size && var3 == 0 {
        Some(NpkVersion::Version1)
    } else if full_index_offset + file_count * 0x1C <= file_size && var3 == 2 {
        Some(NpkVersion::Version1_32)
    } else {
        None
    }
}

/// The header of an archive.
pub struct NpkHeader {
    pub version: NpkVersion,
    pub file_count: u32,
    pub large_file_index_offset: u32,
    pub index_offset: u32,
}

/// Why an archive header is refused.
#[derive(Debug, Clone, Copy, PartialEq, Eq, Structural)]
pub enum HeaderFault {
    /// The archive ends inside its header.
    Truncated,
    /// The archive does not start with the magic word.
    InvalidHeader,
}

/// The header fault that an archive error reports, if it reports one.
pub open spec fn header_fault_of(e: Npk2Error) -> Option<HeaderFault> {
    match e {
        Npk2Error::IoError(_) => Some(HeaderFault::Truncated),
        Npk2Error::InvalidHeader => Some(HeaderFault::InvalidHeader),
        _ => None,
    }
}

/// The start of the index table that the header bytes `b` give: the low word
/// at 20, the high word at 8.
pub open spec fn header_index_start(b: Seq<u8>) -> int {
    le_field(b, 8, 4) as int * 0x1_0000_0000 + le_field(b, 20, 4) as int
}

/// Header bytes that start with the magic word and hold all six header words.
pub open spec fn header_complete(b: Seq<u8>) -> bool {
    b.len() >= 24 && le_field(b, 0, 4) == NPK_MAGIC
}

/// The archive header read from the bytes `b` at the front of an archive of
/// `file_size` bytes: the magic word at 0, the entry count at 4, the high word of
/// the index start at 8, two words at 12 and 16 (the second tells the 28-byte
/// layouts apart) and the low word of the index start at 20.
pub open spec fn spec_npk_header(b: Seq<u8>, file_size: int) -> Result<NpkHeader, HeaderFault> {
    if b.len() < 4 {
        Err(HeaderFault::Truncated)
    } else if le_field(b, 0, 4) != NPK_MAGIC {
        Err(HeaderFault::InvalidHeader)
    } else if b.len() < 24 {
        Err(HeaderFault::Truncated)
    } else {
        Ok(
            NpkHeader {
                version: detect_version(
                    header_index_start(b),
                    le_field(b, 4, 4) as int,
                    file_size,
                    le_field(b, 16, 4) as int,
                ).unwrap(),
                file_count: le_field(b, 4, 4) as u32,
                large_file_index_offset: le_field(b, 8, 4) as u32,
                index_offset: le_field(b, 20, 4) as u32,
            },
        )
    }
}

/// Header bytes whose archive version can be told: a complete header whose
/// largest table size stays within 64 bits and for which some layout fits.
pub open spec fn header_supported(b: Seq<u8>, file_size: int) -> bool {
    header_complete(b) ==> {
        &&& header_index_start(b) + le_field(b, 4, 4) * 0x28 <= u64::MAX
        &&& detect_version(
            header_index_start(b),
            le_field(b, 4, 4) as int,
            file_size,
            le_field(b, 16, 4) as int,
        ) is Some
    }
}

/// Whether `r` is what reading the header bytes `b` of an archive of
/// `file_size` bytes gives.
pub open spec fn header_read_as(r: Result<NpkHeader, Npk2Error>, b: Seq<u8>, file_size: int) -> bool {
    match spec_npk_header(b, file_size) {
        Ok(h) => r == Ok::<NpkHeader, Npk2Error>(h),
        Err(f) => r matches Err(e) && header_fault_of(e) == Some(f),
    }
}

impl NpkHeader {
    /// Where the index table starts: `index_offset` in the low word and
    /// `large_file_index_offset` in the high word.
    pub open spec fn spec_index_offset(&self) -> int {
        self.large_file_index_offset as int * 0x1_0000_0000 + self.index_offset as int
    }

    /// How many bytes the index table takes.
    pub open spec fn spec_index_buffer_size(&self) -> int {
        self.file_count as int * entry_size(self.version) as int
    }

    /// Reads the header from its bytes `header` (the first 24 bytes of the
    /// archive, or the whole archive where it is shorter) and the archive's size.
    pub fn parse(header: &[u8], file_size: u64) -> (r: Result<NpkHeader, Npk2Error>)
        requires
            header_supported(header@, file_size as int),
        ensures
            header_read_as(r, header@, file_size as int),
    {
        let ghost b = header@;
        let mut cur: &[u8] = header;
        let magic = match read_u32_le(&mut cur) {
            Ok(v) => v,
            Err(e) => return Err(Npk2Error::IoError(e)),
        };
        proof { lemma_cursor_field(b, 0, 4); }
        if magic != 0x4B50584E {
            return Err(Npk2Error::InvalidHeader);
        }
        let file_count = match read_u32_le(&mut cur) {
            Ok(v) => v,
            Err(e) => return Err(Npk2Error::IoError(e)),
        };
        proof { lemma_cursor_field(b, 4, 4); }
        let large_file_index_offset = match read_u32_le(&mut cur) {
            Ok(v) => v,
            Err(e) => return Err(Npk2Error::IoError(e)),
        };
        proof { lemma_cursor_field(b, 8, 4); }
        let _var2 = match read_u32_le(&mut cur) {
            Ok(v) => v,
            Err(e) => return Err(Npk2Error::IoError(e)),
        };
        proof { lemma_cursor_field(b, 12, 4); }
        let _var3 = match read_u32_le(&mut cur) {
            Ok(v) => v,
            Err(e) => return Err(Npk2Error::IoError(e)),
        };
        proof { lemma_cursor_field(b, 16, 4); }
        let index_offset = match read_u32_le(&mut cur) {
            Ok(v) => v,
            Err(e) => return Err(Npk2Error::IoError(e)),
        };
        proof {
            lemma_cursor_field(b, 20, 4);
            lemma_join_words(index_offset, large_file_index_offset);
        }
        let full_index_offset = index_offset as u64 | ((large_file_index_offset as u64) << 0x20);
        let version = if full_index_offset + file_count as u64 * 0x28 <= file_size {
            NpkVersion::Version2
        } else if full_index_offset + file_count as u64 * 0x20 <= file_size {
            NpkVersion::Version1_2
        } else if full_index_offset + file_count as u64 * 0x1C <= file_size && _var3 == 0 {
            NpkVersion::Version1
        } else {
            NpkVersion::Version1_32
        };
        Ok(NpkHeader { version, file_count, large_file_index_offset, index_offset })
    }

    /// Where the index table starts in the archive.
    pub fn index_offset(&self) -> (r: u64)
        ensures
            r == (self.index_offset as u64 | ((self.large_file_index_offset as u64) << 0x20)),
            r == self.spec_index_offset(),
    {
        proof { lemma_join_words(self.index_offset, self.large_file_index_offset); }
        self.index_offset as u64 | ((self.large_file_index_offset as u64) << 0x20)
    }

    /// How many bytes one index entry takes in this archive.
    pub fn size_of_index_entry(&self) -> (r: u64)
        ensures
            r == entry_size(self.version),
    {
        match self.version {
            NpkVersion::Version1 => 0x1C,
            NpkVersion::Version1_32 => 0x1C,
            NpkVersion::Version1_2 => 0x20,
            NpkVersion::Version2 => 0x28,
        }
    }

    /// How many bytes the index table takes.
    pub fn index_buffer_size(&self) -> (r: usize)
        requires
            self.spec_index_buffer_size() <= usize::MAX,
        ensures
            r == self.spec_index_buffer_size(),
    {
        self.file_count as usize * self.size_of_index_entry() as usize
    }
}

/// The entry that an index record of an archive of version `v` describes.
pub open spec fn spec_entry(v: NpkVersion, b: Seq<u8>) -> Result<NeoXIndex, EntryFault> {
    match v {
        NpkVersion::Version1 => match spec_index1(b) {
            Ok(i) => Ok(NeoXIndex::Version1(i)),
            Err(f) => Err(f),
        },
        NpkVersion::Version1_2 => match spec_index1_2(b) {
            Ok(i) => Ok(NeoXIndex::Version1_2(i)),
            Err(f) => Err(f),
        },
        NpkVersion::Version1_32 => match spec_index1_32(b) {
            Ok(i) => Ok(NeoXIndex::Version1_32(i)),
            Err(f) => Err(f),
        },
        NpkVersion::Version2 => match spec_index2(b) {
            Ok(i) => Ok(NeoXIndex::Version2(i)),
            Err(f) => Err(f),
        },
    }
}

/// The `i`-th record of an index table whose records take `size` bytes.
pub open spec fn record(table: Seq<u8>, size: int, i: int) -> Seq<u8> {
    table.subrange(i * size, (i + 1) * size)
}

/// The first `n` entries of the index table `table` of an archive of version `v`,
/// or the fault of the first of them that cannot be decoded.
pub open spec fn spec_entries(v: NpkVersion, table: Seq<u8>, n: nat) -> Result<Seq<NeoXIndex>, EntryFault>
    decreases n,
{
    if n == 0 {
        Ok(Seq::empty())
    } else {
        match spec_entries(v, table, (n - 1) as nat) {
            Err(f) => Err(f),
            Ok(s) => match spec_entry(v, record(table, entry_size(v) as int, n - 1)) {
                Err(f) => Err(f),
                Ok(x) => Ok(s.push(x)),
            },
        }
    }
}

/// A record that the decoder of version `v` can take without an arithmetic overflow.
pub open spec fn entry_decodable(v: NpkVersion, b: Seq<u8>) -> bool {
    v == NpkVersion::Version1_32 ==> !mask_overflows(b)
}

/// The first `n` records of the table can be read in turn: each record that is
/// reached (all records before it decoded) is decodable.
pub open spec fn entries_decodable(v: NpkVersion, table: Seq<u8>, n: nat) -> bool
    decreases n,
{
    if n == 0 {
        true
    } else {
        &&& entries_decodable(v, table, (n - 1) as nat)
        &&& spec_entries(v, table, (n - 1) as nat) is Ok ==> entry_decodable(
            v,
            record(table, entry_size(v) as int, n - 1),
        )
    }
}

/// How many whole records of version `v` the table holds.
pub open spec fn record_count(v: NpkVersion, table: Seq<u8>) -> nat {
    table.len() / entry_size(v)
}

/// The entries decoded from the first `n` records up to the first record that
/// cannot be decoded (all `n` of them where every one decodes).
pub open spec fn decoded_prefix(v: NpkVersion, table: Seq<u8>, n: nat) -> Seq<NeoXIndex>
    decreases n,
{
    match spec_entries(v, table, n) {
        Ok(s) => s,
        Err(_) => if n == 0 {
            Seq::empty()
        } else {
            decoded_prefix(v, table, (n - 1) as nat)
        },
    }
}

/// Whether `r` is the outcome of reading all whole records of the table: success
/// where every record decodes, else the error of the first that does not.
pub open spec fn entries_outcome(r: Result<(), Npk2Error>, v: NpkVersion, table: Seq<u8>) -> bool {
    match spec_entries(v, table, record_count(v, table)) {
        Ok(_) => r is Ok,
        Err(f) => r matches Err(Npk2Error::IndexError(e)) && fault_of(e) == Some(f),
    }
}

/// Once the first `m` records decode and record `m` does not, the decoded
/// prefix of any longer part of the table is the first `m` entries.
proof fn lemma_prefix_stops(v: NpkVersion, table: Seq<u8>, m: nat, n: nat)
    requires
        m < n,
        spec_entries(v, table, m) is Ok,
        spec_entries(v, table, (m + 1) as nat) is Err,
    ensures
        decoded_prefix(v, table, n) == spec_entries(v, table, m)->Ok_0,
    decreases n,
{
    lemma_entries_fault_persists(v, table, (m + 1) as nat, n);
    if n > m + 1 {
        lemma_prefix_stops(v, table, m, (n - 1) as nat);
    } else {
        assert(decoded_prefix(v, table, m) == spec_entries(v, table, m)->Ok_0);
    }
}

proof fn lemma_entries_decodable_prefix(v: NpkVersion, table: Seq<u8>, m: nat, n: nat)
    requires
        m <= n,
        entries_decodable(v, table, n),
    ensures
        entries_decodable(v, table, m),
    decreases n,
{
    if m < n {
        lemma_entries_decodable_prefix(v, table, m, (n - 1) as nat);
    }
}

proof fn lemma_entries_fault_persists(v: NpkVersion, table: Seq<u8>, m: nat, n: nat)
    requires
        m <= n,
        spec_entries(v, table, m) is Err,
    ensures
        spec_entries(v, table, n) == spec_entries(v, table, m),
    decreases n,
{
    if m < n {
        lemma_entries_fault_persists(v, table, m, (n - 1) as nat);
    }
}

proof fn lemma_record_in_table(len: int, size: int, i: int)
    requires
        size > 0,
        len >= 0,
        0 <= i < len / size,
    ensures
        0 <= i * size,
        i * size + size <= len,
        (i + 1) * size == i * size + size,
{
    assert(i * size + size <= len) by (nonlinear_arith)
        requires
            size > 0,
            0 <= i < len / size,
            len >= 0,
    {
        assert(i + 1 <= len / size);
        assert((i + 1) * size <= (len / size) * size);
        assert((len / size) * size <= len);
    }
    assert(0 <= i * size) by (nonlinear_arith)
        requires
            0 <= i,
            size > 0,
    ;
    assert((i + 1) * size == i * size + size) by (nonlinear_arith);
}

impl NpkHeader {
    /// Reads the entries of the index table `table` in the layout of this
    /// archive's version, one record after another, and appends them to
    /// `indices`; a trailing part shorter than a record is left unread. The
    /// first record that cannot be decoded ends the reading with its error, the
    /// entries decoded before it staying appended.
    pub fn read_indices(&self, table: &[u8], indices: &mut Vec<NeoXIndex>) -> (r: Result<(), Npk2Error>)
        requires
            entries_decodable(self.version, table@, record_count(self.version, table@)),
        ensures
            final(indices)@ == old(indices)@ + decoded_prefix(
                self.version,
                table@,
                record_count(self.version, table@),
            ),
            entries_outcome(r, self.version, table@),
    {
        let ghost v = self.version;
        let ghost init = indices@;
        let size = self.size_of_index_entry() as usize;
        let count = table.len() / size;
        let mut i: usize = 0;
        while i < count
            invariant
                v == self.version,
                init == old(indices)@,
                size == entry_size(v),
                count == record_count(v, table@),
                i <= count,
                entries_decodable(v, table@, count as nat),
                spec_entries(v, table@, i as nat) is Ok,
                indices@ == init + spec_entries(v, table@, i as nat)->Ok_0,
            decreases count - i,
        {
            proof {
                lemma_record_in_table(table@.len() as int, size as int, i as int);
                lemma_entries_decodable_prefix(v, table@, (i + 1) as nat, count as nat);
                assert(table@.len() == table.len());
                assert(i * size + size <= table.len());
            }
            let start = i * size;
            let end = start + size;
            let mut record_bytes = vstd::slice::slice_to_vec(&table[start..end]);
            assert(record_bytes@ == record(table@, size as int, i as int));
            let entry = match self.version {
                NpkVersion::Version1 => match NeoXIndex1::from_slice(record_bytes.as_mut_slice()) {
                    Ok(index) => NeoXIndex::Version1(index),
                    Err(e) => {
                        proof { lemma_stop(v, table@, i as nat, count as nat); }
                        return Err(Npk2Error::IndexError(e));
                    },
                },
                NpkVersion::Version1_2 => match NeoXIndex1_2::from_slice(record_bytes.as_mut_slice()) {
                    Ok(index) => NeoXIndex::Version1_2(index),
                    Err(e) => {
                        proof { lemma_stop(v, table@, i as nat, count as nat); }
                        return Err(Npk2Error::IndexError(e));
                    },
                },
                NpkVersion::Version1_32 => match NeoXIndex1_32::from_slice(record_bytes.as_mut_slice()) {
                    Ok(index) => NeoXIndex::Version1_32(index),
                    Err(e) => {
                        proof { lemma_stop(v, table@, i as nat, count as nat); }
                        return Err(Npk2Error::IndexError(e));
                    },
                },
                NpkVersion::Version2 => match NeoXIndex2::from_slice(record_bytes.as_mut_slice()) {
                    Ok(index) => NeoXIndex::Version2(index),
                    Err(e) => {
                        proof { lemma_stop(v, table@, i as nat, count as nat); }
                        return Err(Npk2Error::IndexError(e));
                    },
                },
            };
            let ghost before = spec_entries(v, table@, i as nat)->Ok_0;
            indices.push(entry);
            assert(indices@ == init + before.push(entry));
            i = i + 1;
        }
        Ok(())
    }
}

/// Reading stops at record `i`, the first that does not decode: the entries
/// before it make up the decoded prefix, and its fault is the table's.
proof fn lemma_stop(v: NpkVersion, table: Seq<u8>, i: nat, count: nat)
    requires
        i < count,
        spec_entries(v, table, i) is Ok,
        spec_entries(v, table, i + 1) is Err,
    ensures
        decoded_prefix(v, table, count) == spec_entries(v, table, i)->Ok_0,
        spec_entries(v, table, count) == spec_entries(v, table, i + 1),
{
    lemma_prefix_stops(v, table, i, count);
    lemma_entries_fault_persists(v, table, i + 1, count);
}

/// The index table of an archive whose header is read successfully lies within
/// the archive: it starts at the header's index offset and, in the layout of the
/// detected version, ends no later than the archive does.
pub proof fn lemma_detected_table_fits(b: Seq<u8>, file_size: int)
    requires
        header_supported(b, file_size),
        spec_npk_header(b, file_size) is Ok,
    ensures
        ({
            let h = spec_npk_header(b, file_size)->Ok_0;
            h.spec_index_offset() + h.spec_index_buffer_size() <= file_size
        }),
{
}

/// A table of `n` records, all decoded, gives `n` entries.
proof fn lemma_entries_len(v: NpkVersion, table: Seq<u8>, n: nat)
    requires
        spec_entries(v, table, n) is Ok,
    ensures
        spec_entries(v, table, n)->Ok_0.len() == n,
    decreases n,
{
    if n > 0 {
        lemma_entries_len(v, table, (n - 1) as nat);
    }
}

/// An index table read whole (as many bytes as the header's table size) holds
/// exactly as many records as the header counts files, and when every record
/// decodes it gives one entry per file.
pub proof fn lemma_whole_table_gives_file_count(h: NpkHeader, table: Seq<u8>)
    requires
        table.len() == h.spec_index_buffer_size(),
    ensures
        record_count(h.version, table) == h.file_count,
        spec_entries(h.version, table, record_count(h.version, table)) is Ok ==> spec_entries(
            h.version,
            table,
            record_count(h.version, table),
        )->Ok_0.len() == h.file_count,
{
    let c = h.file_count as int;
    let s = entry_size(h.version) as int;
    assert((c * s) / s == c) by (nonlinear_arith)
        requires
            s > 0,
            c >= 0,
    ;
    if spec_entries(h.version, table, record_count(h.version, table)) is Ok {
        lemma_entries_len(h.version, table, record_count(h.version, table));
    }
}

impl NpkHeader {
    /// Whether the header bytes of an archive of `file_size` bytes are ones whose
    /// version can be told (see `header_supported`).
    pub fn is_supported(header: &[u8], file_size: u64) -> (r: bool)
        ensures
            r == header_supported(header@, file_size as int),
    {
        let ghost b = header@;
        if header.len() < 24 {
            return true;
        }
        let mut cur: &[u8] = header;
        let magic = match read_u32_le(&mut cur) {
            Ok(v) => v,
            Err(_) => return true,
        };
        proof { lemma_cursor_field(b, 0, 4); }
        if magic != 0x4B50584E {
            return true;
        }
        let file_count = match read_u32_le(&mut cur) {
            Ok(v) => v,
            Err(_) => return true,
        };
        proof { lemma_cursor_field(b, 4, 4); }
        let large_file_index_offset = match read_u32_le(&mut cur) {
            Ok(v) => v,
            Err(_) => return true,
        };
        proof { lemma_cursor_field(b, 8, 4); }
        let _var2 = match read_u32_le(&mut cur) {
            Ok(v) => v,
            Err(_) => return true,
        };
        proof { lemma_cursor_field(b, 12, 4); }
        let var3 = match read_u32_le(&mut cur) {
            Ok(v) => v,
            Err(_) => return true,
        };
        proof { lemma_cursor_field(b, 16, 4); }
        let index_offset = match read_u32_le(&mut cur) {
            Ok(v) => v,
            Err(_) => return true,
        };
        proof {
            lemma_cursor_field(b, 20, 4);
            lemma_join_words(index_offset, large_file_index_offset);
        }
        let full_index_offset = index_offset as u64 | ((large_file_index_offset as u64) << 0x20);
        let table = file_count as u64 * 0x28;
        if full_index_offset > u64::MAX - table {
            return false;
        }
        full_index_offset + file_count as u64 * 0x28 <= file_size
            || full_index_offset + file_count as u64 * 0x20 <= file_size
            || (full_index_offset + file_count as u64 * 0x1C <= file_size && (var3 == 0 || var3 == 2))
    }

    /// Whether the records of the index table can be read in turn by `read_indices`
    /// (see `entries_decodable`).
    pub fn can_read_indices(&self, table: &[u8]) -> (r: bool)
        ensures
            r == entries_decodable(self.version, table@, record_count(self.version, table@)),
    {
        let ghost v = self.version;
        let size = self.size_of_index_entry() as usize;
        let count = table.len() / size;
        let mut i: usize = 0;
        while i < count
            invariant
                v == self.version,
                size == entry_size(v),
                count == record_count(v, table@),
                i <= count,
                entries_decodable(v, table@, i as nat),
                spec_entries(v, table@, i as nat) is Ok,
            decreases count - i,
        {
            proof {
                lemma_record_in_table(table@.len() as int, size as int, i as int);
                assert(table@.len() == table.len());
            }
            let start = i * size;
            let end = start + size;
            let record_bytes = &table[start..end];
            assert(record_bytes@ == record(table@, size as int, i as int));
            if v_is_1_32(self.version) {
                if !NeoXIndex1_32::has_decodable_mask(record_bytes) {
                    proof { lemma_entries_decodable_stops(v, table@, (i + 1) as nat, count as nat); }
                    return false;
                }
            }
            let mut copy = vstd::slice::slice_to_vec(record_bytes);
            let ok = match self.version {
                NpkVersion::Version1 => NeoXIndex1::from_slice(copy.as_mut_slice()).is_ok(),
                NpkVersion::Version1_2 => NeoXIndex1_2::from_slice(copy.as_mut_slice()).is_ok(),
                NpkVersion::Version1_32 => NeoXIndex1_32::from_slice(copy.as_mut_slice()).is_ok(),
                NpkVersion::Version2 => NeoXIndex2::from_slice(copy.as_mut_slice()).is_ok(),
            };
            if !ok {
                proof {
                    lemma_entries_fault_persists(v, table@, (i + 1) as nat, count as nat);
                    lemma_entries_decodable_after_fault(v, table@, (i + 1) as nat, count as nat);
                }
                return true;
            }
            i = i + 1;
        }
        true
    }
}

fn v_is_1_32(v: NpkVersion) -> (r: bool)
    ensures
        r == (v == NpkVersion::Version1_32),
{
    match v {
        NpkVersion::Version1_32 => true,
        _ => false,
    }
}

/// Once a record is reached that cannot be decoded without overflow, the
/// table cannot be read.
proof fn lemma_entries_decodable_stops(v: NpkVersion, table: Seq<u8>, m: nat, n: nat)
    requires
        0 < m <= n,
        spec_entries(v, table, (m - 1) as nat) is Ok,
        !entry_decodable(v, record(table, entry_size(v) as int, m - 1)),
    ensures
        !entries_decodable(v, table, n),
    decreases n,
{
    if m < n {
        lemma_entries_decodable_stops(v, table, m, (n - 1) as nat);
    }
}

/// Records after the first one that fails to decode are never reached.
proof fn lemma_entries_decodable_after_fault(v: NpkVersion, table: Seq<u8>, m: nat, n: nat)
    requires
        m <= n,
        entries_decodable(v, table, m),
        spec_entries(v, table, m) is Err,
    ensures
        entries_decodable(v, table, n),
    decreases n,
{
    if m < n {
        lemma_entries_decodable_after_fault(v, table, m, (n - 1) as nat);
        lemma_entries_fault_persists(v, table, m, (n - 1) as nat);
    }
}

/// Whether an entry has the layout of archive version `v`.
pub open spec fn has_layout(e: NeoXIndex, v: NpkVersion) -> bool {
    match v {
        NpkVersion::Version1 => e is Version1,
        NpkVersion::Version1_2 => e is Version1_2,
        NpkVersion::Version1_32 => e is Version1_32,
        NpkVersion::Version2 => e is Version2,
    }
}

/// Every entry read from an index table has the layout of the archive's
/// version, and entry `i` is what record `i` of the table describes.
pub proof fn lemma_entries_follow_version(v: NpkVersion, table: Seq<u8>, n: nat)
    requires
        spec_entries(v, table, n) is Ok,
    ensures
        forall|i: int|
            0 <= i < n ==> {
                &&& has_layout(#[trigger] spec_entries(v, table, n)->Ok_0[i], v)
                &&& spec_entry(v, record(table, entry_size(v) as int, i)) == Ok::<NeoXIndex, EntryFault>(
                    spec_entries(v, table, n)->Ok_0[i],
                )
            },
    decreases n,
{
    if n > 0 {
        lemma_entries_follow_version(v, table, (n - 1) as nat);
        lemma_entries_len(v, table, (n - 1) as nat);
    }
}

/// `s` written `k` times in a row.
pub open spec fn repeated(s: Seq<NeoXIndex>, k: nat) -> Seq<NeoXIndex>
    decreases k,
{
    if k == 0 {
        Seq::empty()
    } else {
        repeated(s, (k - 1) as nat) + s
    }
}

proof fn lemma_repeated_len(s: Seq<NeoXIndex>, k: nat)
    ensures
        repeated(s, k).len() == k * s.len(),
    decreases k,
{
    if k > 0 {
        lemma_repeated_len(s, (k - 1) as nat);
        assert(k * s.len() == (k - 1) * s.len() + s.len()) by (nonlinear_arith)
            requires
                k > 0,
        ;
    } else {
        assert(k * s.len() == 0) by (nonlinear_arith)
            requires
                k == 0,
        ;
    }
}

/// Reading the same index table `k` times in turn, each time appending to the
/// same list (`lists[j + 1]` is `lists[j]` after call `j + 1`, as `read_indices`
/// leaves it), leaves the entries that were there before followed by `k` copies
/// of the decoded entries. When every record decodes and the table is read
/// whole, the list has grown by `k` times the header's file count.
pub proof fn lemma_repeated_reads(h: NpkHeader, table: Seq<u8>, lists: Seq<Seq<NeoXIndex>>, k: nat)
    requires
        lists.len() == k + 1,
        forall|j: int|
            0 <= j < k ==> #[trigger] lists[j + 1] == lists[j] + decoded_prefix(
                h.version,
                table,
                record_count(h.version, table),
            ),
    ensures
        lists[k as int] == lists[0] + repeated(
            decoded_prefix(h.version, table, record_count(h.version, table)),
            k,
        ),
        spec_entries(h.version, table, record_count(h.version, table)) is Ok && table.len()
            == h.spec_index_buffer_size() ==> lists[k as int].len() == lists[0].len() + k
            * h.file_count,
    decreases k,
{
    let p = decoded_prefix(h.version, table, record_count(h.version, table));
    if k == 0 {
        assert(lists[0] + repeated(p, 0) =~= lists[0]);
    } else {
        let shorter = lists.take(k as int);
        assert forall|j: int| 0 <= j < (k - 1) as nat implies #[trigger] shorter[j + 1] == shorter[j] + p by {
            assert(shorter[j + 1] == lists[j + 1]);
            assert(shorter[j] == lists[j]);
        }
        lemma_repeated_reads(h, table, shorter, (k - 1) as nat);
        assert(shorter[k - 1] == lists[k - 1]);
        assert(lists[(k - 1) + 1] == lists[k - 1] + p);
        assert(lists[k as int] =~= lists[0] + repeated(p, k));
    }
    lemma_repeated_len(p, k);
    if spec_entries(h.version, table, record_count(h.version, table)) is Ok && table.len()
        == h.spec_index_buffer_size() {
        lemma_whole_table_gives_file_count(h, table);
    }
}

/// Reading a header takes each field from its place, as little-endian words:
/// the magic word at 0, the file count at 4, the upper half of the index offset
/// at 8, the version hint at 16 and the lower half of the index offset at 20.
/// Among the versions whose whole table fits in the file from the index offset,
/// the one with the largest records is chosen; records of 28 bytes are of
/// version 1 where the hint is 0 and of version 1.32 where it is 2.
pub proof fn lemma_header_layout(b: Seq<u8>, file_size: int)
    requires
        header_supported(b, file_size),
    ensures
        spec_npk_header(b, file_size) matches Ok(h) ==> {
            &&& u32_at(b, 0) == 0x4B50584E
            &&& h.file_count == u32_at(b, 4)
            &&& h.large_file_index_offset == u32_at(b, 8)
            &&& h.index_offset == u32_at(b, 20)
            &&& h.spec_index_offset() == u32_at(b, 8) * 0x1_0000_0000 + u32_at(b, 20)
            &&& h.spec_index_offset() + h.file_count * entry_size(h.version) <= file_size
            &&& forall|w: NpkVersion|
                #[trigger] entry_size(w) > entry_size(h.version) ==> h.spec_index_offset()
                    + h.file_count * entry_size(w) > file_size
            &&& h.version == NpkVersion::Version1 ==> u32_at(b, 16) == 0
            &&& h.version == NpkVersion::Version1_32 ==> u32_at(b, 16) == 2
        },
        b.len() >= 4 && u32_at(b, 0) != 0x4B50584E ==> spec_npk_header(b, file_size) == Err::<
            NpkHeader,
            HeaderFault,
        >(HeaderFault::InvalidHeader),
{
    lemma_le_fields(b, 0);
    lemma_le_fields(b, 4);
    lemma_le_fields(b, 8);
    lemma_le_fields(b, 16);
    lemma_le_fields(b, 20);
    if spec_npk_header(b, file_size) is Ok {
        let h = spec_npk_header(b, file_size)->Ok_0;
        let c = h.file_count as int;
        assert(c * 0x1C <= c * 0x20 <= c * 0x28) by (nonlinear_arith)
            requires
                c >= 0,
        ;
    }
}

} // verus!
