//! Index entries of an NPK archive and their on-disk layouts.
use vstd::prelude::*;
use crate::codec::{decompress_lz4, decompress_zlib, lz4_block_decodable, lz4_block_decoded, zlib_stream_decoded};
use crate::error::{fault_of, EntryFault, NeoXIndexError};
use crate::wire::{le_field, lemma_cursor_field, lemma_le_fields, u16_at, u32_at, u64_at, read_i8, read_u16_le, read_u32_le, read_u64_le, read_u8};
use crate::inflate::zlib_stream_decodable;

verus! {

/// How the content of an entry is compressed.
#[derive(Debug, Clone, Copy, PartialEq, Eq, Structural)]
pub enum NeoXIndex2CompressType {
    Uncompressed,
    LZ4,
    ZLib,
}

/// How the content of an entry is encrypted.
#[derive(Debug, Clone, Copy, PartialEq, Eq, Structural)]
pub enum NeoXIndex2EncryptType {
    Unencrypted,
    RC4,
    Simple,
}

/// The compression that a stored code names: 0 none, 1 zlib, 2 LZ4.
pub open spec fn compress_type_of_code(code: int) -> Option<NeoXIndex2CompressType> {
    if code == 0 {
        Some(NeoXIndex2CompressType::Uncompressed)
    } else if code == 1 {
        Some(NeoXIndex2CompressType::ZLib)
    } else if code == 2 {
        Some(NeoXIndex2CompressType::LZ4)
    } else {
        None
    }
}

/// The encryption that a stored code names: 0 none, 1 simple, 2 RC4.
pub open spec fn encrypt_type_of_code(code: int) -> Option<NeoXIndex2EncryptType> {
    if code == 0 {
        Some(NeoXIndex2EncryptType::Unencrypted)
    } else if code == 1 {
        Some(NeoXIndex2EncryptType::Simple)
    } else if code == 2 {
        Some(NeoXIndex2EncryptType::RC4)
    } else {
        None
    }
}

fn compress_type_from_code(code: u32) -> (r: Option<NeoXIndex2CompressType>)
    ensures
        r == compress_type_of_code(code as int),
{
    match code {
        0 => Some(NeoXIndex2CompressType::Uncompressed),
        1 => Some(NeoXIndex2CompressType::ZLib),
        2 => Some(NeoXIndex2CompressType::LZ4),
        _ => None,
    }
}

fn encrypt_type_from_code(code: u8) -> (r: Option<NeoXIndex2EncryptType>)
    ensures
        r == encrypt_type_of_code(code as int),
{
    match code {
        0 => Some(NeoXIndex2EncryptType::Unencrypted),
        1 => Some(NeoXIndex2EncryptType::Simple),
        2 => Some(NeoXIndex2EncryptType::RC4),
        _ => None,
    }
}

/// The outcome of decoding a record whose type codes are `compress` and `encrypt`:
/// the compression code is checked first.
pub open spec fn check_codes(compress: int, encrypt: int) -> Result<
    (NeoXIndex2CompressType, NeoXIndex2EncryptType),
    EntryFault,
> {
    match compress_type_of_code(compress) {
        None => Err(EntryFault::UnknownCompressType),
        Some(c) => match encrypt_type_of_code(encrypt) {
            None => Err(EntryFault::UnknownEncryptType),
            Some(e) => Ok((c, e)),
        },
    }
}

/// Whether `r`, the result of decoding a record, is what `expected` says it is:
/// the same entry, or an error that reports the same fault.
pub open spec fn decoded_as<T>(r: Result<T, NeoXIndexError>, expected: Result<T, EntryFault>) -> bool {
    match expected {
        Ok(x) => r == Ok::<T, NeoXIndexError>(x),
        Err(f) => r matches Err(e) && fault_of(e) == Some(f),
    }
}

/// An index entry in the layout of the first archive version (28 bytes).
#[derive(Debug)]
pub struct NeoXIndex1 {
    pub name_hash: u64,
    pub offset: u32,
    pub compressed_size: u32,
    pub uncompressed_size: u32,
    pub compression_type: NeoXIndex2CompressType,
    pub encrypt_type: NeoXIndex2EncryptType,
    pub large_file_offset: u8,
}

/// The entry that a record of the first layout describes:
/// a 32-bit name hash at 0, offset at 4, compressed size at 8, uncompressed size at 12,
/// eight unused bytes at 16, a 16-bit compression code at 24, the encryption code at 26
/// and the high offset byte at 27.
pub open spec fn spec_index1(b: Seq<u8>) -> Result<NeoXIndex1, EntryFault> {
    if b.len() < 28 {
        Err(EntryFault::Truncated)
    } else {
        match check_codes(le_field(b, 24, 2) as int, le_field(b, 26, 1) as int) {
            Err(f) => Err(f),
            Ok((c, e)) => Ok(
                NeoXIndex1 {
                    name_hash: le_field(b, 0, 4) as u64,
                    offset: le_field(b, 4, 4) as u32,
                    compressed_size: le_field(b, 8, 4) as u32,
                    uncompressed_size: le_field(b, 12, 4) as u32,
                    compression_type: c,
                    encrypt_type: e,
                    large_file_offset: le_field(b, 27, 1) as u8,
                },
            ),
        }
    }
}

impl NeoXIndex1 {
    /// Decodes an entry of the first layout from the front of `slice`.
    pub fn from_slice(slice: &mut [u8]) -> (r: Result<Self, NeoXIndexError>)
        ensures
            final(slice)@ == old(slice)@,
            decoded_as(r, spec_index1(old(slice)@)),
    {
        let ghost b = slice@;
        let mut cur: &[u8] = &*slice;
        let name_hash = match read_u32_le(&mut cur) {
            Ok(v) => v,
            Err(e) => return Err(NeoXIndexError::IoError(e)),
        };
        proof { lemma_cursor_field(b, 0, 4); }
        let offset = match read_u32_le(&mut cur) {
            Ok(v) => v,
            Err(e) => return Err(NeoXIndexError::IoError(e)),
        };
        proof { lemma_cursor_field(b, 4, 4); }
        let compressed_size = match read_u32_le(&mut cur) {
            Ok(v) => v,
            Err(e) => return Err(NeoXIndexError::IoError(e)),
        };
        proof { lemma_cursor_field(b, 8, 4); }
        let uncompressed_size = match read_u32_le(&mut cur) {
            Ok(v) => v,
            Err(e) => return Err(NeoXIndexError::IoError(e)),
        };
        proof { lemma_cursor_field(b, 12, 4); }
        let _field_14 = match read_u64_le(&mut cur) {
            Ok(v) => v,
            Err(e) => return Err(NeoXIndexError::IoError(e)),
        };
        proof { lemma_cursor_field(b, 16, 8); }
        let compress_type = match read_u16_le(&mut cur) {
            Ok(v) => v,
            Err(e) => return Err(NeoXIndexError::IoError(e)),
        };
        proof { lemma_cursor_field(b, 24, 2); }
        let encrypt_type = match read_u8(&mut cur) {
            Ok(v) => v,
            Err(e) => return Err(NeoXIndexError::IoError(e)),
        };
        proof { lemma_cursor_field(b, 26, 1); }
        let large_file_offset = match read_u8(&mut cur) {
            Ok(v) => v,
            Err(e) => return Err(NeoXIndexError::IoError(e)),
        };
        proof { lemma_cursor_field(b, 27, 1); }
        let compression_type = match compress_type_from_code(compress_type as u32) {
            Some(c) => c,
            None => return Err(NeoXIndexError::UnkownCompressType),
        };
        let encrypt_type = match encrypt_type_from_code(encrypt_type) {
            Some(e) => e,
            None => return Err(NeoXIndexError::UnknownEncryptType),
        };
        Ok(NeoXIndex1 {
            name_hash: name_hash as u64,
            offset,
            compressed_size,
            uncompressed_size,
            compression_type,
            encrypt_type,
            large_file_offset,
        })
    }
}

/// An index entry in the layout of the 1.2 archive version (32 bytes).
#[derive(Debug)]
pub struct NeoXIndex1_2 {
    pub name_hash: u64,
    pub offset: u32,
    pub compressed_size: u32,
    pub uncompressed_size: u32,
    pub compression_type: NeoXIndex2CompressType,
    pub encrypt_type: NeoXIndex2EncryptType,
    pub large_file_offset: u8,
}

/// The entry that a record of the 1.2 layout describes:
/// a 64-bit name hash at 0, offset at 8, compressed size at 12, uncompressed size at 16,
/// eight unused bytes at 20, a 16-bit compression code at 28, the encryption code at 30
/// and the high offset byte at 31.
pub open spec fn spec_index1_2(b: Seq<u8>) -> Result<NeoXIndex1_2, EntryFault> {
    if b.len() < 32 {
        Err(EntryFault::Truncated)
    } else {
        match check_codes(le_field(b, 28, 2) as int, le_field(b, 30, 1) as int) {
            Err(f) => Err(f),
            Ok((c, e)) => Ok(
                NeoXIndex1_2 {
                    name_hash: le_field(b, 0, 8) as u64,
                    offset: le_field(b, 8, 4) as u32,
                    compressed_size: le_field(b, 12, 4) as u32,
                    uncompressed_size: le_field(b, 16, 4) as u32,
                    compression_type: c,
                    encrypt_type: e,
                    large_file_offset: le_field(b, 31, 1) as u8,
                },
            ),
        }
    }
}

impl NeoXIndex1_2 {
    /// Decodes an entry of the 1.2 layout from the front of `slice`.
    pub fn from_slice(slice: &mut [u8]) -> (r: Result<Self, NeoXIndexError>)
        ensures
            final(slice)@ == old(slice)@,
            decoded_as(r, spec_index1_2(old(slice)@)),
    {
        let ghost b = slice@;
        let mut cur: &[u8] = &*slice;
        let name_hash = match read_u64_le(&mut cur) {
            Ok(v) => v,
            Err(e) => return Err(NeoXIndexError::IoError(e)),
        };
        proof { lemma_cursor_field(b, 0, 8); }
        let offset = match read_u32_le(&mut cur) {
            Ok(v) => v,
            Err(e) => return Err(NeoXIndexError::IoError(e)),
        };
        proof { lemma_cursor_field(b, 8, 4); }
        let compressed_size = match read_u32_le(&mut cur) {
            Ok(v) => v,
            Err(e) => return Err(NeoXIndexError::IoError(e)),
        };
        proof { lemma_cursor_field(b, 12, 4); }
        let uncompressed_size = match read_u32_le(&mut cur) {
            Ok(v) => v,
            Err(e) => return Err(NeoXIndexError::IoError(e)),
        };
        proof { lemma_cursor_field(b, 16, 4); }
        let _field_14 = match read_u64_le(&mut cur) {
            Ok(v) => v,
            Err(e) => return Err(NeoXIndexError::IoError(e)),
        };
        proof { lemma_cursor_field(b, 20, 8); }
        let compress_type = match read_u16_le(&mut cur) {
            Ok(v) => v,
            Err(e) => return Err(NeoXIndexError::IoError(e)),
        };
        proof { lemma_cursor_field(b, 28, 2); }
        let encrypt_type = match read_u8(&mut cur) {
            Ok(v) => v,
            Err(e) => return Err(NeoXIndexError::IoError(e)),
        };
        proof { lemma_cursor_field(b, 30, 1); }
        let large_file_offset = match read_u8(&mut cur) {
            Ok(v) => v,
            Err(e) => return Err(NeoXIndexError::IoError(e)),
        };
        proof { lemma_cursor_field(b, 31, 1); }
        let compression_type = match compress_type_from_code(compress_type as u32) {
            Some(c) => c,
            None => return Err(NeoXIndexError::UnkownCompressType),
        };
        let encrypt_type = match encrypt_type_from_code(encrypt_type) {
            Some(e) => e,
            None => return Err(NeoXIndexError::UnknownEncryptType),
        };
        Ok(NeoXIndex1_2 {
            name_hash,
            offset,
            compressed_size,
            uncompressed_size,
            compression_type,
            encrypt_type,
            large_file_offset,
        })
    }
}

/// An index entry in the layout of the 32-bit-hash variant of the first archive
/// version (28 bytes), whose offsets may be obscured.
#[derive(Debug)]
pub struct NeoXIndex1_32 {
    pub name_hash: u64,
    pub offset: u32,
    pub compressed_size: u32,
    pub uncompressed_size: u32,
    pub compression_type: NeoXIndex2CompressType,
    pub encrypt_type: NeoXIndex2EncryptType,
    pub large_file_offset: u8,
}

/// The mask with which an obscured offset of the 1.32 layout is stored,
/// given the entry's uncompressed size.
pub open spec fn offset_mask(uncompressed_size: int) -> u32 {
    ((uncompressed_size + 99) as u32) ^ 0x85F6F276u32
}

/// A record of the 1.32 layout whose offset is obscured (its compression code is
/// at least 62) while its uncompressed size is too large for the mask to be computed
/// without overflow.
pub open spec fn mask_overflows(b: Seq<u8>) -> bool {
    &&& b.len() >= 28
    &&& le_field(b, 24, 4) >= 62
    &&& le_field(b, 12, 4) + 99 > u32::MAX
}

/// The entry that a record of the 1.32 layout describes:
/// a 32-bit name hash at 0, offset at 4, compressed size at 8, uncompressed size at 12,
/// eight unused bytes at 16 and a 32-bit compression code at 24. A code of 62 or more
/// marks an obscured offset: the code is then lowered by 62 and the offset unmasked.
/// Entries of this layout are never encrypted and have no high offset byte.
pub open spec fn spec_index1_32(b: Seq<u8>) -> Result<NeoXIndex1_32, EntryFault> {
    if b.len() < 28 {
        Err(EntryFault::Truncated)
    } else {
        let raw = le_field(b, 24, 4) as int;
        let stored = le_field(b, 4, 4) as u32;
        let masked = raw >= 62;
        let offset = if masked {
            stored ^ offset_mask(le_field(b, 12, 4) as int)
        } else {
            stored
        };
        let code = if masked {
            raw - 62
        } else {
            raw
        };
        match check_codes(code, 0) {
            Err(f) => Err(f),
            Ok((c, e)) => Ok(
                NeoXIndex1_32 {
                    name_hash: le_field(b, 0, 4) as u64,
                    offset,
                    compressed_size: le_field(b, 8, 4) as u32,
                    uncompressed_size: le_field(b, 12, 4) as u32,
                    compression_type: c,
                    encrypt_type: e,
                    large_file_offset: 0,
                },
            ),
        }
    }
}

impl NeoXIndex1_32 {
    /// Whether decoding the record takes no arithmetic overflow (see `mask_overflows`).
    pub fn has_decodable_mask(slice: &[u8]) -> (r: bool)
        ensures
            r == !mask_overflows(slice@),
    {
        let ghost b = slice@;
        let mut cur: &[u8] = slice;
        if slice.len() < 28 {
            return true;
        }
        let _name_hash = read_u32_le(&mut cur);
        proof { lemma_cursor_field(b, 0, 4); }
        let _offset = read_u32_le(&mut cur);
        proof { lemma_cursor_field(b, 4, 4); }
        let _compressed_size = read_u32_le(&mut cur);
        proof { lemma_cursor_field(b, 8, 4); }
        let uncompressed_size = match read_u32_le(&mut cur) {
            Ok(v) => v,
            Err(_) => return true,
        };
        proof { lemma_cursor_field(b, 12, 4); }
        let _field_10 = read_u32_le(&mut cur);
        proof { lemma_cursor_field(b, 16, 4); }
        let _field_14 = read_u32_le(&mut cur);
        proof { lemma_cursor_field(b, 20, 4); }
        let compress_type = match read_u32_le(&mut cur) {
            Ok(v) => v,
            Err(_) => return true,
        };
        proof { lemma_cursor_field(b, 24, 4); }
        !(compress_type >= 62 && uncompressed_size > u32::MAX - 99)
    }

    /// Decodes an entry of the 1.32 layout from the front of `slice`.
    pub fn from_slice(slice: &mut [u8]) -> (r: Result<Self, NeoXIndexError>)
        requires
            !mask_overflows(old(slice)@),
        ensures
            final(slice)@ == old(slice)@,
            decoded_as(r, spec_index1_32(old(slice)@)),
    {
        let ghost b = slice@;
        let mut cur: &[u8] = &*slice;
        let name_hash = match read_u32_le(&mut cur) {
            Ok(v) => v,
            Err(e) => return Err(NeoXIndexError::IoError(e)),
        };
        proof { lemma_cursor_field(b, 0, 4); }
        let mut offset = match read_u32_le(&mut cur) {
            Ok(v) => v,
            Err(e) => return Err(NeoXIndexError::IoError(e)),
        };
        proof { lemma_cursor_field(b, 4, 4); }
        let compressed_size = match read_u32_le(&mut cur) {
            Ok(v) => v,
            Err(e) => return Err(NeoXIndexError::IoError(e)),
        };
        proof { lemma_cursor_field(b, 8, 4); }
        let uncompressed_size = match read_u32_le(&mut cur) {
            Ok(v) => v,
            Err(e) => return Err(NeoXIndexError::IoError(e)),
        };
        proof { lemma_cursor_field(b, 12, 4); }
        let _field_10 = match read_u32_le(&mut cur) {
            Ok(v) => v,
            Err(e) => return Err(NeoXIndexError::IoError(e)),
        };
        proof { lemma_cursor_field(b, 16, 4); }
        let _field_14 = match read_u32_le(&mut cur) {
            Ok(v) => v,
            Err(e) => return Err(NeoXIndexError::IoError(e)),
        };
        proof { lemma_cursor_field(b, 20, 4); }
        let mut compress_type = match read_u32_le(&mut cur) {
            Ok(v) => v,
            Err(e) => return Err(NeoXIndexError::IoError(e)),
        };
        proof { lemma_cursor_field(b, 24, 4); }
        let encrypt_type: u8 = 0;
        if compress_type >= 62 {
            offset ^= (uncompressed_size + 99) ^ 0x85F6F276;
            compress_type = compress_type - 62;
        }
        let compression_type = match compress_type_from_code(compress_type) {
            Some(c) => c,
            None => return Err(NeoXIndexError::UnkownCompressType),
        };
        let encrypt_type = match encrypt_type_from_code(encrypt_type) {
            Some(e) => e,
            None => return Err(NeoXIndexError::UnknownEncryptType),
        };
        Ok(Self {
            name_hash: name_hash as u64,
            offset,
            compressed_size,
            uncompressed_size,
            compression_type,
            encrypt_type,
            large_file_offset: 0,
        })
    }
}

/// An index entry in the layout of the second archive version (40 bytes).
#[derive(Debug)]
pub struct NeoXIndex2 {
    pub name_hash: u64,
    pub offset: u32,
    pub compressed_size: u32,
    pub uncompressed_size: u32,
    pub compression_type: NeoXIndex2CompressType,
    pub encrypt_type: NeoXIndex2EncryptType,
    pub large_file_offset: u8,
}

/// The entry that a record of the second layout describes:
/// a 64-bit name hash at 0, offset at 8, compressed size at 12, uncompressed size at 16,
/// sixteen unused bytes at 20, a 16-bit compression code at 36, the encryption code at 38
/// and the high offset byte at 39.
pub open spec fn spec_index2(b: Seq<u8>) -> Result<NeoXIndex2, EntryFault> {
    if b.len() < 40 {
        Err(EntryFault::Truncated)
    } else {
        match check_codes(le_field(b, 36, 2) as int, le_field(b, 38, 1) as int) {
            Err(f) => Err(f),
            Ok((c, e)) => Ok(
                NeoXIndex2 {
                    name_hash: le_field(b, 0, 8) as u64,
                    offset: le_field(b, 8, 4) as u32,
                    compressed_size: le_field(b, 12, 4) as u32,
                    uncompressed_size: le_field(b, 16, 4) as u32,
                    compression_type: c,
                    encrypt_type: e,
                    large_file_offset: le_field(b, 39, 1) as u8,
                },
            ),
        }
    }
}

impl NeoXIndex2 {
    /// The hash of the entry's file name.
    pub fn name_hash(&self) -> (r: u64)
        ensures
            r == self.name_hash,
    {
        self.name_hash
    }

    /// Decodes an entry of the second layout from the front of `slice`.
    pub fn from_slice(slice: &mut [u8]) -> (r: Result<Self, NeoXIndexError>)
        ensures
            final(slice)@ == old(slice)@,
            decoded_as(r, spec_index2(old(slice)@)),
    {
        let ghost b = slice@;
        let mut cur: &[u8] = &*slice;
        let name_hash = match read_u64_le(&mut cur) {
            Ok(v) => v,
            Err(e) => return Err(NeoXIndexError::IoError(e)),
        };
        proof { lemma_cursor_field(b, 0, 8); }
        let offset = match read_u32_le(&mut cur) {
            Ok(v) => v,
            Err(e) => return Err(NeoXIndexError::IoError(e)),
        };
        proof { lemma_cursor_field(b, 8, 4); }
        let compressed_size = match read_u32_le(&mut cur) {
            Ok(v) => v,
            Err(e) => return Err(NeoXIndexError::IoError(e)),
        };
        proof { lemma_cursor_field(b, 12, 4); }
        let uncompressed_size = match read_u32_le(&mut cur) {
            Ok(v) => v,
            Err(e) => return Err(NeoXIndexError::IoError(e)),
        };
        proof { lemma_cursor_field(b, 16, 4); }
        let _field_14 = match read_u32_le(&mut cur) {
            Ok(v) => v,
            Err(e) => return Err(NeoXIndexError::IoError(e)),
        };
        proof { lemma_cursor_field(b, 20, 4); }
        let _field_18 = match read_u64_le(&mut cur) {
            Ok(v) => v,
            Err(e) => return Err(NeoXIndexError::IoError(e)),
        };
        proof { lemma_cursor_field(b, 24, 8); }
        let _field_20 = match read_i8(&mut cur) {
            Ok(v) => v,
            Err(e) => return Err(NeoXIndexError::IoError(e)),
        };
        proof { lemma_cursor_field(b, 32, 1); }
        let _field_21 = match read_i8(&mut cur) {
            Ok(v) => v,
            Err(e) => return Err(NeoXIndexError::IoError(e)),
        };
        proof { lemma_cursor_field(b, 33, 1); }
        let _field_22 = match read_i8(&mut cur) {
            Ok(v) => v,
            Err(e) => return Err(NeoXIndexError::IoError(e)),
        };
        proof { lemma_cursor_field(b, 34, 1); }
        let _field_23 = match read_i8(&mut cur) {
            Ok(v) => v,
            Err(e) => return Err(NeoXIndexError::IoError(e)),
        };
        proof { lemma_cursor_field(b, 35, 1); }
        let compress_type = match read_u16_le(&mut cur) {
            Ok(v) => v,
            Err(e) => return Err(NeoXIndexError::IoError(e)),
        };
        proof { lemma_cursor_field(b, 36, 2); }
        let encrypt_type = match read_u8(&mut cur) {
            Ok(v) => v,
            Err(e) => return Err(NeoXIndexError::IoError(e)),
        };
        proof { lemma_cursor_field(b, 38, 1); }
        let large_file_offset = match read_u8(&mut cur) {
            Ok(v) => v,
            Err(e) => return Err(NeoXIndexError::IoError(e)),
        };
        proof { lemma_cursor_field(b, 39, 1); }
        let compression_type = match compress_type_from_code(compress_type as u32) {
            Some(c) => c,
            None => return Err(NeoXIndexError::UnkownCompressType),
        };
        let encrypt_type = match encrypt_type_from_code(encrypt_type) {
            Some(e) => e,
            None => return Err(NeoXIndexError::UnknownEncryptType),
        };
        Ok(NeoXIndex2 {
            name_hash,
            offset,
            compressed_size,
            uncompressed_size,
            compression_type,
            encrypt_type,
            large_file_offset,
        })
    }
}

/// An index entry, in the layout of the archive version it was read from.
#[derive(Debug)]
pub enum NeoXIndex {
    Version1(NeoXIndex1),
    Version1_2(NeoXIndex1_2),
    Version1_32(NeoXIndex1_32),
    Version2(NeoXIndex2),
}

/// Where an entry's content starts: the 32-bit offset with the high offset byte
/// placed from bit 20 on.
pub open spec fn full_offset(offset: u32, large_file_offset: u8) -> u64 {
    offset as u64 | (large_file_offset as u64) << 20
}

/// Whether `r` is what unpacking `raw` with compression `c` gives: the bytes
/// themselves when uncompressed; the decoder's output, or the matching
/// error where the decoder fails (an LZ4 block that decodes to nothing fails too).
pub open spec fn content_decoded(
    c: NeoXIndex2CompressType,
    raw: Seq<u8>,
    r: Result<Vec<u8>, NeoXIndexError>,
) -> bool {
    match c {
        NeoXIndex2CompressType::Uncompressed => r matches Ok(v) && v@ == raw,
        NeoXIndex2CompressType::LZ4 => if lz4_block_decoded(raw).len() == 0 {
            r matches Err(NeoXIndexError::DecompressFailedLZ4)
        } else {
            r matches Ok(v) && v@ == lz4_block_decoded(raw)
        },
        NeoXIndex2CompressType::ZLib => match zlib_stream_decoded(raw) {
            Some(d) => r matches Ok(v) && v@ == d,
            None => r matches Err(NeoXIndexError::DecompressFailedZLib),
        },
    }
}

impl NeoXIndex {
    pub open spec fn spec_name_hash(&self) -> u64 {
        match self {
            NeoXIndex::Version1(i) => i.name_hash,
            NeoXIndex::Version1_2(i) => i.name_hash,
            NeoXIndex::Version1_32(i) => i.name_hash,
            NeoXIndex::Version2(i) => i.name_hash,
        }
    }

    pub open spec fn spec_encrypt_type(&self) -> NeoXIndex2EncryptType {
        match self {
            NeoXIndex::Version1(i) => i.encrypt_type,
            NeoXIndex::Version1_2(i) => i.encrypt_type,
            NeoXIndex::Version1_32(i) => i.encrypt_type,
            NeoXIndex::Version2(i) => i.encrypt_type,
        }
    }

    pub open spec fn spec_compress_type(&self) -> NeoXIndex2CompressType {
        match self {
            NeoXIndex::Version1(i) => i.compression_type,
            NeoXIndex::Version1_2(i) => i.compression_type,
            NeoXIndex::Version1_32(i) => i.compression_type,
            NeoXIndex::Version2(i) => i.compression_type,
        }
    }

    pub open spec fn spec_offset(&self) -> u64 {
        match self {
            NeoXIndex::Version1(i) => full_offset(i.offset, i.large_file_offset),
            NeoXIndex::Version1_2(i) => full_offset(i.offset, i.large_file_offset),
            NeoXIndex::Version1_32(i) => full_offset(i.offset, i.large_file_offset),
            NeoXIndex::Version2(i) => full_offset(i.offset, i.large_file_offset),
        }
    }

    pub open spec fn spec_compressed_size(&self) -> u64 {
        match self {
            NeoXIndex::Version1(i) => i.compressed_size as u64,
            NeoXIndex::Version1_2(i) => i.compressed_size as u64,
            NeoXIndex::Version1_32(i) => i.compressed_size as u64,
            NeoXIndex::Version2(i) => i.compressed_size as u64,
        }
    }

    /// The hash of the entry's file name.
    pub fn name_hash(&self) -> (r: u64)
        ensures
            r == self.spec_name_hash(),
    {
        match self {
            Self::Version1(index) => index.name_hash,
            Self::Version1_2(index) => index.name_hash,
            Self::Version1_32(index) => index.name_hash,
            Self::Version2(index) => index.name_hash(),
        }
    }

    /// How the entry's content is encrypted.
    pub fn encrypt_type(&self) -> (r: NeoXIndex2EncryptType)
        ensures
            r == self.spec_encrypt_type(),
    {
        match self {
            Self::Version1(index) => index.encrypt_type,
            Self::Version1_2(index) => index.encrypt_type,
            Self::Version1_32(index) => index.encrypt_type,
            Self::Version2(index) => index.encrypt_type,
        }
    }

    /// How the entry's content is compressed.
    pub fn compress_type(&self) -> (r: NeoXIndex2CompressType)
        ensures
            r == self.spec_compress_type(),
    {
        match self {
            Self::Version1(index) => index.compression_type,
            Self::Version1_2(index) => index.compression_type,
            Self::Version1_32(index) => index.compression_type,
            Self::Version2(index) => index.compression_type,
        }
    }

    /// Where in the archive the entry's content starts.
    pub fn offset(&self) -> (r: u64)
        ensures
            r == self.spec_offset(),
    {
        match self {
            Self::Version1(index) => index.offset as u64 | (index.large_file_offset as u64) << 20,
            Self::Version1_2(index) => index.offset as u64 | (index.large_file_offset as u64) << 20,
            Self::Version1_32(index) => {
                index.offset as u64 | (index.large_file_offset as u64) << 20
            },
            Self::Version2(index) => index.offset as u64 | (index.large_file_offset as u64) << 20,
        }
    }

    /// How many bytes of the archive the entry's content takes.
    pub fn compressed_size(&self) -> (r: u64)
        ensures
            r == self.spec_compressed_size(),
    {
        (match self {
            Self::Version1(index) => index.compressed_size,
            Self::Version1_2(index) => index.compressed_size,
            Self::Version1_32(index) => index.compressed_size,
            Self::Version2(index) => index.compressed_size,
        }) as u64
    }

    /// Unpacks the stored bytes of the entry's content.
    /// Only unencrypted content can be unpacked, and only from an LZ4 block or a
    /// zlib stream that the decoder reads without a fault
    /// (`lz4_block_is_decodable` and `zlib_stream_is_decodable` tell them).
    pub fn decode_content(&self, buffer: Vec<u8>) -> (r: Result<Vec<u8>, NeoXIndexError>)
        requires
            self.spec_encrypt_type() == NeoXIndex2EncryptType::Unencrypted,
            self.spec_compress_type() == NeoXIndex2CompressType::LZ4 ==> lz4_block_decodable(buffer@),
            self.spec_compress_type() == NeoXIndex2CompressType::ZLib ==> zlib_stream_decodable(buffer@),
        ensures
            content_decoded(self.spec_compress_type(), buffer@, r),
    {
        let compress_type = self.compress_type();
        match compress_type {
            NeoXIndex2CompressType::Uncompressed => Ok(buffer),
            NeoXIndex2CompressType::LZ4 => decompress_lz4(buffer.as_slice()),
            NeoXIndex2CompressType::ZLib => decompress_zlib(buffer.as_slice()),
        }
    }
}

/// The number by which a record writes a compression.
pub open spec fn compression_code(c: NeoXIndex2CompressType) -> int {
    match c {
        NeoXIndex2CompressType::Uncompressed => 0,
        NeoXIndex2CompressType::ZLib => 1,
        NeoXIndex2CompressType::LZ4 => 2,
    }
}

/// The number by which a record writes an encryption.
pub open spec fn encryption_code(e: NeoXIndex2EncryptType) -> int {
    match e {
        NeoXIndex2EncryptType::Unencrypted => 0,
        NeoXIndex2EncryptType::Simple => 1,
        NeoXIndex2EncryptType::RC4 => 2,
    }
}

/// Decoding a record of the first layout reads every field from its place in
/// the record, as little-endian words: the name hash at 0, the offset at 4,
/// the compressed size at 8, the uncompressed size at 12, the compression
/// code at 24, the encryption code at 26 and the high offset byte at
/// 27. A record shorter than 28 bytes is truncated; otherwise an unknown
/// compression code is reported before an unknown encryption code.
pub proof fn lemma_spec_index1_layout(b: Seq<u8>)
    ensures
        b.len() < 28 ==> spec_index1(b) == Err::<NeoXIndex1, EntryFault>(EntryFault::Truncated),
        b.len() >= 28 && u16_at(b, 24) > 2 ==> spec_index1(b) == Err::<NeoXIndex1, EntryFault>(
            EntryFault::UnknownCompressType,
        ),
        b.len() >= 28 && u16_at(b, 24) <= 2 && b[26] > 2 ==> spec_index1(b) == Err::<NeoXIndex1, EntryFault>(
            EntryFault::UnknownEncryptType,
        ),
        b.len() >= 28 && u16_at(b, 24) <= 2 && b[26] <= 2 ==> spec_index1(b) is Ok,
        spec_index1(b) matches Ok(e) ==> {
            &&& e.name_hash == u32_at(b, 0)
            &&& e.offset == u32_at(b, 4)
            &&& e.compressed_size == u32_at(b, 8)
            &&& e.uncompressed_size == u32_at(b, 12)
            &&& compression_code(e.compression_type) == u16_at(b, 24)
            &&& encryption_code(e.encrypt_type) == b[26]
            &&& e.large_file_offset == b[27]
        },
{
    lemma_le_fields(b, 0);
    lemma_le_fields(b, 4);
    lemma_le_fields(b, 8);
    lemma_le_fields(b, 12);
    lemma_le_fields(b, 24);
    lemma_le_fields(b, 26);
    lemma_le_fields(b, 27);
}

/// Decoding a record of the 1.2 layout reads every field from its place in
/// the record, as little-endian words: the name hash at 0, the offset at 8,
/// the compressed size at 12, the uncompressed size at 16, the compression
/// code at 28, the encryption code at 30 and the high offset byte at
/// 31. A record shorter than 32 bytes is truncated; otherwise an unknown
/// compression code is reported before an unknown encryption code.
pub proof fn lemma_spec_index1_2_layout(b: Seq<u8>)
    ensures
        b.len() < 32 ==> spec_index1_2(b) == Err::<NeoXIndex1_2, EntryFault>(EntryFault::Truncated),
        b.len() >= 32 && u16_at(b, 28) > 2 ==> spec_index1_2(b) == Err::<NeoXIndex1_2, EntryFault>(
            EntryFault::UnknownCompressType,
        ),
        b.len() >= 32 && u16_at(b, 28) <= 2 && b[30] > 2 ==> spec_index1_2(b) == Err::<NeoXIndex1_2, EntryFault>(
            EntryFault::UnknownEncryptType,
        ),
        b.len() >= 32 && u16_at(b, 28) <= 2 && b[30] <= 2 ==> spec_index1_2(b) is Ok,
        spec_index1_2(b) matches Ok(e) ==> {
            &&& e.name_hash == u64_at(b, 0)
            &&& e.offset == u32_at(b, 8)
            &&& e.compressed_size == u32_at(b, 12)
            &&& e.uncompressed_size == u32_at(b, 16)
            &&& compression_code(e.compression_type) == u16_at(b, 28)
            &&& encryption_code(e.encrypt_type) == b[30]
            &&& e.large_file_offset == b[31]
        },
{
    lemma_le_fields(b, 0);
    lemma_le_fields(b, 8);
    lemma_le_fields(b, 12);
    lemma_le_fields(b, 16);
    lemma_le_fields(b, 28);
    lemma_le_fields(b, 30);
    lemma_le_fields(b, 31);
}

/// Decoding a record of the second layout reads every field from its place in
/// the record, as little-endian words: the name hash at 0, the offset at 8,
/// the compressed size at 12, the uncompressed size at 16, the compression
/// code at 36, the encryption code at 38 and the high offset byte at
/// 39. A record shorter than 40 bytes is truncated; otherwise an unknown
/// compression code is reported before an unknown encryption code.
pub proof fn lemma_spec_index2_layout(b: Seq<u8>)
    ensures
        b.len() < 40 ==> spec_index2(b) == Err::<NeoXIndex2, EntryFault>(EntryFault::Truncated),
        b.len() >= 40 && u16_at(b, 36) > 2 ==> spec_index2(b) == Err::<NeoXIndex2, EntryFault>(
            EntryFault::UnknownCompressType,
        ),
        b.len() >= 40 && u16_at(b, 36) <= 2 && b[38] > 2 ==> spec_index2(b) == Err::<NeoXIndex2, EntryFault>(
            EntryFault::UnknownEncryptType,
        ),
        b.len() >= 40 && u16_at(b, 36) <= 2 && b[38] <= 2 ==> spec_index2(b) is Ok,
        spec_index2(b) matches Ok(e) ==> {
            &&& e.name_hash == u64_at(b, 0)
            &&& e.offset == u32_at(b, 8)
            &&& e.compressed_size == u32_at(b, 12)
            &&& e.uncompressed_size == u32_at(b, 16)
            &&& compression_code(e.compression_type) == u16_at(b, 36)
            &&& encryption_code(e.encrypt_type) == b[38]
            &&& e.large_file_offset == b[39]
        },
{
    lemma_le_fields(b, 0);
    lemma_le_fields(b, 8);
    lemma_le_fields(b, 12);
    lemma_le_fields(b, 16);
    lemma_le_fields(b, 36);
    lemma_le_fields(b, 38);
    lemma_le_fields(b, 39);
}

/// Decoding a record of the 1.32 layout reads the name hash at 0, the stored
/// offset at 4, the compressed size at 8, the uncompressed size at 12 and a
/// 32-bit compression code at 24, as little-endian words. A code of 62 or more
/// marks an obscured offset: the code is lowered by 62 and the stored offset is
/// xor-ed with `(uncompressed size + 99) ^ 0x85F6F276`. The entry is never
/// encrypted and has no high offset byte. A record shorter than 28 bytes is
/// truncated, and a (lowered) code above 2 is unknown.
pub proof fn lemma_spec_index1_32_layout(b: Seq<u8>)
    ensures
        b.len() < 28 ==> spec_index1_32(b) == Err::<NeoXIndex1_32, EntryFault>(EntryFault::Truncated),
        b.len() >= 28 ==> ({
            let raw = u32_at(b, 24);
            let code = if raw >= 62 { raw - 62 } else { raw };
            &&& code > 2 ==> spec_index1_32(b) == Err::<NeoXIndex1_32, EntryFault>(
                EntryFault::UnknownCompressType,
            )
            &&& code <= 2 ==> (spec_index1_32(b) matches Ok(e) && {
                &&& e.name_hash == u32_at(b, 0)
                &&& e.offset == if raw >= 62 {
                    (u32_at(b, 4) as u32) ^ (((u32_at(b, 12) + 99) as u32) ^ 0x85F6F276u32)
                } else {
                    u32_at(b, 4) as u32
                }
                &&& e.compressed_size == u32_at(b, 8)
                &&& e.uncompressed_size == u32_at(b, 12)
                &&& compression_code(e.compression_type) == code
                &&& e.encrypt_type == NeoXIndex2EncryptType::Unencrypted
                &&& e.large_file_offset == 0
            })
        }),
{
    lemma_le_fields(b, 0);
    lemma_le_fields(b, 4);
    lemma_le_fields(b, 8);
    lemma_le_fields(b, 12);
    lemma_le_fields(b, 24);
}

/// Each accessor of an entry gives the field of that name of the record it
/// holds, whatever its layout; the offset places the high offset byte from bit
/// 20 on, over the 32-bit offset.
pub proof fn lemma_entry_accessors(x: NeoXIndex)
    ensures
        match x {
            NeoXIndex::Version1(i) => {
                &&& x.spec_name_hash() == i.name_hash
                &&& x.spec_compressed_size() == i.compressed_size
                &&& x.spec_compress_type() == i.compression_type
                &&& x.spec_encrypt_type() == i.encrypt_type
                &&& x.spec_offset() == (i.offset as u64 | ((i.large_file_offset as u64) << 20u64))
            },
            NeoXIndex::Version1_2(i) => {
                &&& x.spec_name_hash() == i.name_hash
                &&& x.spec_compressed_size() == i.compressed_size
                &&& x.spec_compress_type() == i.compression_type
                &&& x.spec_encrypt_type() == i.encrypt_type
                &&& x.spec_offset() == (i.offset as u64 | ((i.large_file_offset as u64) << 20u64))
            },
            NeoXIndex::Version1_32(i) => {
                &&& x.spec_name_hash() == i.name_hash
                &&& x.spec_compressed_size() == i.compressed_size
                &&& x.spec_compress_type() == i.compression_type
                &&& x.spec_encrypt_type() == i.encrypt_type
                &&& x.spec_offset() == (i.offset as u64 | ((i.large_file_offset as u64) << 20u64))
            },
            NeoXIndex::Version2(i) => {
                &&& x.spec_name_hash() == i.name_hash
                &&& x.spec_compressed_size() == i.compressed_size
                &&& x.spec_compress_type() == i.compression_type
                &&& x.spec_encrypt_type() == i.encrypt_type
                &&& x.spec_offset() == (i.offset as u64 | ((i.large_file_offset as u64) << 20u64))
            },
        },
{
}

/// Unmasking an obscured offset of the 1.32 layout is undone by masking it again:
/// the stored word is the decoded offset under the same mask, so no offset
/// information is lost.
pub proof fn lemma_offset_unmask_roundtrip(b: Seq<u8>)
    requires
        spec_index1_32(b) is Ok,
        le_field(b, 24, 4) >= 62,
    ensures
        spec_index1_32(b)->Ok_0.offset ^ offset_mask(le_field(b, 12, 4) as int) == le_field(b, 4, 4) as u32,
{
    let stored = le_field(b, 4, 4) as u32;
    let mask = offset_mask(le_field(b, 12, 4) as int);
    assert((stored ^ mask) ^ mask == stored) by (bit_vector);
}

} // verus!
