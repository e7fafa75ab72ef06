//! Errors of index decoding and of archive reading.
use vstd::prelude::*;

verus! {

/// `std::io::Error`, carried through the library as an opaque value.
#[verifier::external_type_specification]
#[verifier::external_body]
pub struct ExIoError(std::io::Error);

/// Why an index entry could not be decoded or its content not be unpacked.
#[derive(Debug)]
pub enum NeoXIndexError {
    IoError(std::io::Error),
    UnkownCompressType,
    UnknownEncryptType,
    DecompressFailedLZ4,
    DecompressFailedZLib,
}

/// Why an archive could not be read.
#[derive(Debug)]
pub enum Npk2Error {
    IoError(std::io::Error),
    InvalidHeader,
    IndexError(NeoXIndexError),
}

/// The reasons, independent of any I/O payload, for which a byte record
/// is refused as an index entry.
#[derive(Debug, Clone, Copy, PartialEq, Eq, Structural)]
pub enum EntryFault {
    /// The record is shorter than the layout requires.
    Truncated,
    /// The compression code names no known compression.
    UnknownCompressType,
    /// The encryption code names no known encryption.
    UnknownEncryptType,
}

/// The fault that an index error reports, if it is one of the decoding faults.
pub open spec fn fault_of(e: NeoXIndexError) -> Option<EntryFault> {
    match e {
        NeoXIndexError::IoError(_) => Some(EntryFault::Truncated),
        NeoXIndexError::UnkownCompressType => Some(EntryFault::UnknownCompressType),
        NeoXIndexError::UnknownEncryptType => Some(EntryFault::UnknownEncryptType),
        _ => None,
    }
}

impl From<NeoXIndexError> for Npk2Error {
    fn from(e: NeoXIndexError) -> (r: Self) {
        Npk2Error::IndexError(e)
    }
}

impl vstd::std_specs::convert::FromSpecImpl<NeoXIndexError> for Npk2Error {
    open spec fn obeys_from_spec() -> bool {
        true
    }

    open spec fn from_spec(e: NeoXIndexError) -> Self {
        Npk2Error::IndexError(e)
    }
}

impl From<std::io::Error> for NeoXIndexError {
    fn from(e: std::io::Error) -> (r: Self) {
        NeoXIndexError::IoError(e)
    }
}

impl vstd::std_specs::convert::FromSpecImpl<std::io::Error> for NeoXIndexError {
    open spec fn obeys_from_spec() -> bool {
        true
    }

    open spec fn from_spec(e: std::io::Error) -> Self {
        NeoXIndexError::IoError(e)
    }
}

impl From<std::io::Error> for Npk2Error {
    fn from(e: std::io::Error) -> (r: Self) {
        Npk2Error::IoError(e)
    }
}

impl vstd::std_specs::convert::FromSpecImpl<std::io::Error> for Npk2Error {
    open spec fn obeys_from_spec() -> bool {
        true
    }

    open spec fn from_spec(e: std::io::Error) -> Self {
        Npk2Error::IoError(e)
    }
}

} // verus!
