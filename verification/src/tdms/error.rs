//! What can be wrong with a TDMS file.

use vstd::prelude::*;

verus! {

/// Why a TDMS file cannot be read.
#[derive(Debug)]
pub enum TdmsError {
    /// The data ends inside a field that starts at this offset.
    Eof(usize),
    /// The four bytes at this offset are not the tag of a segment.
    BadTag(usize, [u8; 4]),
    /// A data type code that is not read, and the object that has it.
    UnsupportedDataType(u32, String),
    /// The object holds DAQmx raw data.
    DaqmxNotSupported(String),
    /// The segment is big-endian.
    BigEndianNotSupported,
    /// An object path that does not follow the grammar.
    MalformedPath(String),
    /// Anything else that does not fit together.
    Malformed(String),
}

/// The error with its text as sequences of characters.
pub enum TdmsFault {
    Eof(int),
    BadTag(int, Seq<u8>),
    UnsupportedDataType(u32, Seq<char>),
    DaqmxNotSupported(Seq<char>),
    BigEndianNotSupported,
    MalformedPath(Seq<char>),
    Malformed(Seq<char>),
}

impl View for TdmsError {
    type V = TdmsFault;

    open spec fn view(&self) -> TdmsFault {
        match *self {
            TdmsError::Eof(at) => TdmsFault::Eof(at as int),
            TdmsError::BadTag(at, tag) => TdmsFault::BadTag(at as int, tag@),
            TdmsError::UnsupportedDataType(code, path) => TdmsFault::UnsupportedDataType(
                code,
                path@,
            ),
            TdmsError::DaqmxNotSupported(path) => TdmsFault::DaqmxNotSupported(path@),
            TdmsError::BigEndianNotSupported => TdmsFault::BigEndianNotSupported,
            TdmsError::MalformedPath(path) => TdmsFault::MalformedPath(path@),
            TdmsError::Malformed(what) => TdmsFault::Malformed(what@),
        }
    }
}

} // verus!
